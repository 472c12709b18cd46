//! Encoding profiles: the extra ones that a sidecar text file declares, one
//! per line, as `params # suffix # description`.
use vstd::prelude::*;
use crate::text::{
    char_index, chars_of, find_char_in, string_of_range, trim_chars, trim_range,
};

verus! {

/// One encoding profile: the encoder flags, the suffix added to the output
/// file's name, and the description shown in the menu.
pub struct ConvertParameter {
    pub params: String,
    pub subfix: String,
    pub description: String,
}

impl View for ConvertParameter {
    type V = (Seq<char>, Seq<char>, Seq<char>);

    open spec fn view(&self) -> Self::V {
        (self.params@, self.subfix@, self.description@)
    }
}

/// `s` opens a comment: it starts with `//` or with `#`.
pub open spec fn is_comment(s: Seq<char>) -> bool {
    (s.len() >= 2 && s[0] == '/' && s[1] == '/') || (s.len() >= 1 && s[0] == '#')
}

/// The profile that one line of a sidecar file declares. The trimmed line is
/// cut at `#`: the first field holds the flags, the second the suffix, the
/// third, when there is one, the description, which is else the flags again.
/// Each field is trimmed. Empty lines, comments, lines without `#`, and lines
/// whose flags are empty or hold no `-` declare nothing.
pub open spec fn spec_profile_line(raw: Seq<char>) -> Option<(Seq<char>, Seq<char>, Seq<char>)> {
    let l = trim_chars(raw);
    let h1 = char_index(l, '#');
    let after1 = l.subrange(h1 + 1, l.len() as int);
    let h2 = char_index(after1, '#');
    let after2 = after1.subrange(h2 + 1, after1.len() as int);
    let h3 = char_index(after2, '#');
    let p0 = trim_chars(l.subrange(0, h1));
    let p1 = trim_chars(
        if h2 < 0 {
            after1
        } else {
            after1.subrange(0, h2)
        },
    );
    let p2 = if h2 < 0 {
        p0
    } else {
        trim_chars(
            if h3 < 0 {
                after2
            } else {
                after2.subrange(0, h3)
            },
        )
    };
    if l.len() == 0 || is_comment(l) || h1 < 0 || p0.len() == 0 || char_index(p0, '-') < 0 {
        None
    } else {
        Some((p0, p1, p2))
    }
}

/// The pieces of `s` between line feeds; a trailing line feed leaves an
/// empty last piece.
pub open spec fn spec_pieces(s: Seq<char>) -> Seq<Seq<char>>
    decreases s.len(),
{
    if s.len() == 0 {
        seq![Seq::empty()]
    } else {
        let ps = spec_pieces(s.drop_last());
        if s.last() == '\n' {
            ps.push(Seq::empty())
        } else {
            ps.update(ps.len() - 1, ps.last().push(s.last()))
        }
    }
}

/// The profiles that the lines `ps` declare, in order.
pub open spec fn spec_profiles(ps: Seq<Seq<char>>) -> Seq<(Seq<char>, Seq<char>, Seq<char>)>
    decreases ps.len(),
{
    if ps.len() == 0 {
        Seq::empty()
    } else {
        let before = spec_profiles(ps.drop_last());
        match spec_profile_line(ps.last()) {
            Some(p) => before.push(p),
            None => before,
        }
    }
}

/// The profiles of a sidecar file's text.
pub open spec fn spec_sidecar(content: Seq<char>) -> Seq<(Seq<char>, Seq<char>, Seq<char>)> {
    spec_profiles(spec_pieces(content))
}

/// The profile that the line `s[lo..hi]` declares, as `spec_profile_line` says.
fn profile_from_line(s: &[char], lo: usize, hi: usize) -> (r: Option<ConvertParameter>)
    requires
        lo <= hi <= s@.len(),
    ensures
        match r {
            Some(p) => spec_profile_line(s@.subrange(lo as int, hi as int)) == Some(p@),
            None => spec_profile_line(s@.subrange(lo as int, hi as int)) is None,
        },
{
    let (a, b) = trim_range(s, lo, hi);
    let ghost l = s@.subrange(a as int, b as int);
    if a == b {
        return None;
    }
    if (b - a >= 2 && s[a] == '/' && s[a + 1] == '/') || s[a] == '#' {
        return None;
    }
    let h1 = match find_char_in(s, '#', a, b) {
        Some(h) => h,
        None => return None,
    };
    let ghost after1 = l.subrange(h1 - a + 1, l.len() as int);
    assert(after1 =~= s@.subrange(h1 + 1, b as int));
    assert(l.subrange(0, h1 - a) =~= s@.subrange(a as int, h1 as int));
    let (p0a, p0b) = trim_range(s, a, h1);
    let (seg1_end, h2) = match find_char_in(s, '#', h1 + 1, b) {
        Some(h) => {
            assert(after1.subrange(0, h - h1 - 1) =~= s@.subrange(h1 + 1, h as int));
            (h, Some(h))
        },
        None => (b, None),
    };
    let (p1a, p1b) = trim_range(s, h1 + 1, seg1_end);
    let (p2a, p2b) = match h2 {
        None => (p0a, p0b),
        Some(h) => {
            let ghost after2 = after1.subrange(h - h1, after1.len() as int);
            assert(after2 =~= s@.subrange(h + 1, b as int));
            let seg2_end = match find_char_in(s, '#', h + 1, b) {
                Some(k) => {
                    assert(after2.subrange(0, k - h - 1) =~= s@.subrange(h + 1, k as int));
                    k
                },
                None => b,
            };
            trim_range(s, h + 1, seg2_end)
        },
    };
    if p0a == p0b {
        return None;
    }
    match find_char_in(s, '-', p0a, p0b) {
        None => {
            return None;
        },
        Some(_) => {},
    }
    Some(
        ConvertParameter {
            params: string_of_range(s, p0a, p0b),
            subfix: string_of_range(s, p1a, p1b),
            description: string_of_range(s, p2a, p2b),
        },
    )
}

/// The profiles that a sidecar file's text declares, in the order of its
/// lines, as `spec_sidecar` says.
pub fn parse_sidecar(content: &str) -> (r: Vec<ConvertParameter>)
    ensures
        r@.map_values(|p: ConvertParameter| p@) == spec_sidecar(content@),
{
    let cs = chars_of(content);
    let s = cs.as_slice();
    let n = s.len();
    let mut out: Vec<ConvertParameter> = Vec::new();
    let mut start: usize = 0;
    let mut i: usize = 0;
    let ghost mut done: Seq<Seq<char>> = Seq::empty();
    assert(s@.subrange(0, 0) =~= Seq::<char>::empty());
    while i < n
        invariant
            n == s@.len(),
            s@ == content@,
            start <= i <= n,
            spec_pieces(s@.subrange(0, i as int)) == done.push(s@.subrange(start as int, i as int)),
            out@.map_values(|p: ConvertParameter| p@) == spec_profiles(done),
        decreases n - i,
    {
        let ghost prefix = s@.subrange(0, i + 1);
        assert(prefix.drop_last() =~= s@.subrange(0, i as int));
        if s[i] == '\n' {
            let line = profile_from_line(s, start, i);
            let ghost piece = s@.subrange(start as int, i as int);
            assert(done.push(piece).drop_last() =~= done);
            match line {
                Some(p) => {
                    out.push(p);
                },
                None => {},
            }
            assert(out@.map_values(|p: ConvertParameter| p@) =~= spec_profiles(done.push(piece)));
            proof {
                done = done.push(piece);
            }
            start = i + 1;
            assert(s@.subrange(start as int, i + 1) =~= Seq::<char>::empty());
        } else {
            assert(s@.subrange(start as int, i + 1) =~= s@.subrange(start as int, i as int).push(
                s@[i as int],
            ));
            assert(done.push(s@.subrange(start as int, i as int)).update(
                done.len() as int,
                s@.subrange(start as int, i + 1),
            ) =~= done.push(s@.subrange(start as int, i + 1)));
        }
        i = i + 1;
    }
    assert(s@.subrange(0, n as int) =~= s@);
    let last = profile_from_line(s, start, n);
    let ghost piece = s@.subrange(start as int, n as int);
    assert(done.push(piece).drop_last() =~= done);
    match last {
        Some(p) => {
            out.push(p);
        },
        None => {},
    }
    assert(out@.map_values(|p: ConvertParameter| p@) =~= spec_profiles(done.push(piece)));
    out
}

// ---------------------------------------------------------------------------
// Choosing a profile

pub open spec fn is_ascii_digit(c: char) -> bool {
    '0' <= c <= '9'
}

/// The number that the ASCII digits `s` write.
pub open spec fn char_digits_value(s: Seq<char>) -> nat
    decreases s.len(),
{
    if s.len() == 0 {
        0
    } else {
        char_digits_value(s.drop_last()) * 10 + (s.last() as u32 - 48) as nat
    }
}

pub open spec fn all_ascii_digits(s: Seq<char>) -> bool {
    forall|i: int| 0 <= i < s.len() ==> is_ascii_digit(#[trigger] s[i])
}

/// The width of the sign that opens `s`: one for `-` or `+`, else zero.
pub open spec fn sign_width(s: Seq<char>) -> int {
    if s.len() > 0 && (s[0] == '-' || s[0] == '+') {
        1
    } else {
        0
    }
}

/// What `i32::from_str` reads from `s`: an optional sign, then at least one
/// digit, the value in the range of an `i32`.
pub open spec fn spec_parse_i32(s: Seq<char>) -> Option<int> {
    let body = s.subrange(sign_width(s), s.len() as int);
    let v = if s.len() > 0 && s[0] == '-' {
        -char_digits_value(body)
    } else {
        char_digits_value(body) as int
    };
    if body.len() == 0 || !all_ascii_digits(body) {
        None
    } else if i32::MIN <= v <= i32::MAX {
        Some(v)
    } else {
        None
    }
}

/// One answer typed at the profile menu of `count` entries. The trimmed answer
/// is read as an `i32`, `0` when it is not one; a negative answer asks for a
/// shutdown once the batch is done and stands for its absolute value. The
/// first result is the chosen profile, counted from one, when it is in range;
/// the second, whether a shutdown has been asked for by now.
pub open spec fn spec_menu_step(input: Seq<char>, count: nat, shutdown: bool) -> (
    Option<nat>,
    bool,
) {
    let v = match spec_parse_i32(trim_chars(input)) {
        Some(v) => v,
        None => 0,
    };
    let sel = if v < 0 {
        -v
    } else {
        v
    };
    (
        if 1 <= sel <= count && sel <= i32::MAX {
            Some(sel as nat)
        } else {
            None
        },
        shutdown || v < 0,
    )
}

/// The value of the ASCII digits `s[lo..hi]` when it is at most `2^31`;
/// `None` when one of them is no digit or the value is larger.
fn small_digits_value(s: &[char], lo: usize, hi: usize) -> (r: Option<u64>)
    requires
        lo <= hi <= s@.len(),
    ensures
        match r {
            Some(v) => all_ascii_digits(s@.subrange(lo as int, hi as int)) && v == char_digits_value(
                s@.subrange(lo as int, hi as int),
            ) && v <= 0x8000_0000,
            None => !all_ascii_digits(s@.subrange(lo as int, hi as int)) || char_digits_value(
                s@.subrange(lo as int, hi as int),
            ) > 0x8000_0000,
        },
{
    let mut v: u64 = 0;
    let mut big = false;
    let mut i: usize = lo;
    while i < hi
        invariant
            lo <= i <= hi <= s@.len(),
            forall|k: int| lo <= k < i ==> is_ascii_digit(s@[k]),
            !big ==> v == char_digits_value(s@.subrange(lo as int, i as int)) && v <= 0x8000_0000,
            big ==> char_digits_value(s@.subrange(lo as int, i as int)) > 0x8000_0000,
        decreases hi - i,
    {
        let c = s[i];
        if !('0' <= c && c <= '9') {
            assert(s@.subrange(lo as int, hi as int)[i - lo] == c);
            return None;
        }
        let ghost prev = s@.subrange(lo as int, i as int);
        let ghost next = s@.subrange(lo as int, i + 1);
        assert(next.drop_last() =~= prev);
        if !big {
            let d = (c as u32 - 48) as u64;
            v = v * 10 + d;
            if v > 0x8000_0000 {
                big = true;
            }
        } else {
            assert(char_digits_value(next) >= char_digits_value(prev));
        }
        i = i + 1;
    }
    assert forall|k: int| 0 <= k < hi - lo implies is_ascii_digit(
        #[trigger] s@.subrange(lo as int, hi as int)[k],
    ) by {
        assert(s@.subrange(lo as int, hi as int)[k] == s@[lo + k]);
    }
    if big {
        return None;
    }
    Some(v)
}

/// Reads one answer at the profile menu, as `spec_menu_step` says.
pub fn menu_step(input: &str, count: usize, shutdown: bool) -> (r: (Option<usize>, bool))
    ensures
        (match r.0 {
            Some(i) => Some(i as nat),
            None => None,
        }, r.1) == spec_menu_step(input@, count as nat, shutdown),
{
    let cs = chars_of(input);
    let s = cs.as_slice();
    let (a, b) = trim_range(s, 0, s.len());
    assert(s@.subrange(0, s@.len() as int) =~= s@);
    let ghost t = s@.subrange(a as int, b as int);
    if a < b {
        assert(t[0] == s@[a as int]);
    }
    let neg = a < b && s[a] == '-';
    let signed = a < b && (s[a] == '-' || s[a] == '+');
    let lo = if signed {
        a + 1
    } else {
        a
    };
    assert(t.subrange(sign_width(t), t.len() as int) =~= s@.subrange(lo as int, b as int));
    let mut v: i64 = 0;
    if lo < b {
        match small_digits_value(s, lo, b) {
            Some(m) => {
                if neg {
                    v = -(m as i64);
                } else if m <= 0x7fff_ffff {
                    v = m as i64;
                }
            },
            None => {},
        }
    }
    assert(v == match spec_parse_i32(t) {
        Some(x) => x,
        None => 0,
    });
    let sel: u64 = if v < 0 {
        (-v) as u64
    } else {
        v as u64
    };
    let chosen = if 1 <= sel && sel <= count as u64 && sel <= 0x7fff_ffff {
        Some(sel as usize)
    } else {
        None
    };
    (chosen, shutdown || v < 0)
}

} // verus!
