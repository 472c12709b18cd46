//! Rules on the video files of a batch: which names are videos, which are
//! outputs of an earlier run, how outputs are named, and in which order the
//! files are taken.
use vstd::prelude::*;
use vstd::multiset::Multiset;

verus! {

// ---------------------------------------------------------------------------
// Extensions

/// `i` is the rightmost position of `c` in `s`.
pub open spec fn is_last_char(s: Seq<char>, c: char, i: int) -> bool {
    0 <= i < s.len() && s[i] == c && forall|k: int| i < k < s.len() ==> s[k] != c
}

/// The extension of a file name, as `Path::extension` gives it: what follows
/// the last dot, unless that dot opens the name, or the name is `..`.
pub open spec fn spec_extension(name: Seq<char>) -> Option<Seq<char>> {
    if name == seq!['.', '.'] {
        None
    } else if exists|i: int| is_last_char(name, '.', i) && i > 0 {
        let i = choose|i: int| is_last_char(name, '.', i) && i > 0;
        Some(name.subrange(i + 1, name.len() as int))
    } else {
        None
    }
}

pub open spec fn ascii_lower(c: char) -> char {
    if 'A' <= c <= 'Z' {
        ((c as u8) + 32) as char
    } else {
        c
    }
}

/// `a` and `b` are equal up to the case of ASCII letters.
pub open spec fn eq_ignore_ascii_case(a: Seq<char>, b: Seq<char>) -> bool {
    a.len() == b.len() && forall|i: int| 0 <= i < a.len() ==> ascii_lower(a[i]) == ascii_lower(b[i])
}

fn lower_char(c: char) -> (r: char)
    ensures
        r == ascii_lower(c),
{
    if 'A' <= c && c <= 'Z' {
        ((c as u8) + 32) as char
    } else {
        c
    }
}

fn chars_eq_ignore_ascii_case(a: &[char], lo: usize, hi: usize, b: &[char]) -> (r: bool)
    requires
        lo <= hi <= a@.len(),
    ensures
        r == eq_ignore_ascii_case(a@.subrange(lo as int, hi as int), b@),
{
    let ghost sa = a@.subrange(lo as int, hi as int);
    if hi - lo != b.len() {
        return false;
    }
    let mut i: usize = 0;
    while i < b.len()
        invariant
            lo <= hi <= a@.len(),
            sa == a@.subrange(lo as int, hi as int),
            sa.len() == b@.len(),
            0 <= i <= b@.len(),
            forall|k: int| 0 <= k < i ==> ascii_lower(sa[k]) == ascii_lower(b@[k]),
        decreases b@.len() - i,
    {
        if lower_char(a[lo + i]) != lower_char(b[i]) {
            assert(sa[i as int] == a@[lo + i]);
            return false;
        }
        assert(sa[i as int] == a@[lo + i]);
        i = i + 1;
    }
    true
}

/// The start of the extension of `name`, when it has one.
fn extension_start(name: &[char]) -> (r: Option<usize>)
    ensures
        match r {
            Some(i) => i <= name@.len() && spec_extension(name@) == Some(
                name@.subrange(i as int, name@.len() as int),
            ),
            None => spec_extension(name@) is None,
        },
{
    let n = name.len();
    if n == 2 && name[0] == '.' && name[1] == '.' {
        assert(name@ =~= seq!['.', '.']);
        return None;
    }
    let mut i: usize = n;
    while i > 0
        invariant
            i <= n == name@.len(),
            !(n == 2 && name@[0] == '.' && name@[1] == '.'),
            forall|k: int| i <= k < n ==> name@[k] != '.',
        decreases i,
    {
        if name[i - 1] == '.' {
            let d = i - 1;
            if d == 0 {
                assert forall|j: int| is_last_char(name@, '.', j) implies j <= 0 by {
                    if j > 0 {
                        assert(name@[j] == '.');
                    }
                }
                return None;
            }
            assert(is_last_char(name@, '.', d as int) && d > 0);
            let ghost w = choose|w: int| is_last_char(name@, '.', w) && w > 0;
            assert(w == d) by {
                if w < d {
                    assert(name@[d as int] == '.');
                } else if w > d {
                    assert(name@[w] == '.');
                }
            }
            assert(name@ != seq!['.', '.']) by {
                if name@ == seq!['.', '.'] {
                    assert(name@.len() == 2);
                    assert(name@[0] == '.' && name@[1] == '.');
                }
            }
            return Some(i);
        }
        i = i - 1;
    }
    assert forall|j: int| !is_last_char(name@, '.', j) by {
        if 0 <= j < n {
            assert(name@[j] != '.');
        }
    }
    None
}

/// Whether the file name has one of the extensions `exts`, in any ASCII case.
pub fn is_video_file(file_name: &str, exts: &[&str]) -> (r: bool)
    ensures
        r == (spec_extension(file_name@) matches Some(e) && exists|j: int|
            0 <= j < exts@.len() && eq_ignore_ascii_case(e, #[trigger] exts@[j]@)),
{
    let name = crate::text::chars_of(file_name);
    let start = match extension_start(name.as_slice()) {
        Some(i) => i,
        None => return false,
    };
    let ghost e = name@.subrange(start as int, name@.len() as int);
    let mut j: usize = 0;
    while j < exts.len()
        invariant
            start <= name@.len(),
            name@ == file_name@,
            e == name@.subrange(start as int, name@.len() as int),
            spec_extension(file_name@) == Some(e),
            0 <= j <= exts@.len(),
            forall|k: int| 0 <= k < j ==> !eq_ignore_ascii_case(e, #[trigger] exts@[k]@),
        decreases exts@.len() - j,
    {
        let ext = crate::text::chars_of(exts[j]);
        if chars_eq_ignore_ascii_case(name.as_slice(), start, name.len(), ext.as_slice()) {
            return true;
        }
        j = j + 1;
    }
    false
}

// ---------------------------------------------------------------------------
// Outputs of earlier runs

/// What `str::to_lowercase` gives for a string.
pub uninterp spec fn lower_of(s: Seq<char>) -> Seq<char>;

/// Relies on `str::to_lowercase`: Unicode lower case, a function of the
/// characters alone.
#[verifier::external_body]
fn lowercase(s: &str) -> (r: String)
    ensures
        r@ == lower_of(s@),
{
    s.to_lowercase()
}

pub open spec fn ends_with(s: Seq<char>, suffix: Seq<char>) -> bool {
    s.len() >= suffix.len() && s.subrange(s.len() - suffix.len(), s.len() as int) == suffix
}

/// A lower-cased file stem that marks the output of an earlier run: it ends
/// in `_h265` or `_av1`.
pub open spec fn is_output_stem(lower: Seq<char>) -> bool {
    ends_with(lower, seq!['_', 'h', '2', '6', '5']) || ends_with(lower, seq!['_', 'a', 'v', '1'])
}

fn chars_end_with(s: &[char], suffix: &[char]) -> (r: bool)
    ensures
        r == ends_with(s@, suffix@),
{
    if s.len() < suffix.len() {
        return false;
    }
    let off = s.len() - suffix.len();
    let ghost tail = s@.subrange(off as int, s@.len() as int);
    let n = s.len();
    let mut i: usize = 0;
    while i < suffix.len()
        invariant
            n == s@.len(),
            off + suffix@.len() == s@.len(),
            tail == s@.subrange(off as int, s@.len() as int),
            0 <= i <= suffix@.len(),
            forall|k: int| 0 <= k < i ==> tail[k] == suffix@[k],
        decreases suffix@.len() - i,
    {
        if s[off + i] != suffix[i] {
            assert(tail[i as int] == s@[off + i]);
            return false;
        }
        assert(tail[i as int] == s@[off + i]);
        i = i + 1;
    }
    assert(tail =~= suffix@);
    true
}

/// Whether a lower-cased file stem marks the output of an earlier run, as
/// `is_output_stem` says.
pub fn is_output_stem_lowered(lower: &str) -> (r: bool)
    ensures
        r == is_output_stem(lower@),
{
    let cs = crate::text::chars_of(lower);
    let h265: [char; 5] = ['_', 'h', '2', '6', '5'];
    let av1: [char; 4] = ['_', 'a', 'v', '1'];
    assert(h265@ =~= seq!['_', 'h', '2', '6', '5']);
    assert(av1@ =~= seq!['_', 'a', 'v', '1']);
    chars_end_with(cs.as_slice(), h265.as_slice()) || chars_end_with(cs.as_slice(), av1.as_slice())
}

/// Whether a file stem, in any case, marks the output of an earlier run:
/// such files are left out of a batch.
pub fn is_converted_output(stem: &str) -> (r: bool)
    ensures
        r == is_output_stem(lower_of(stem@)),
{
    let lower = lowercase(stem);
    is_output_stem_lowered(lower.as_str())
}

// ---------------------------------------------------------------------------
// Output names

/// `s` with every occurrence of `p` taken out, from left to right, as
/// `str::replace(p, "")` does for a nonempty `p`.
pub open spec fn remove_all(s: Seq<char>, p: Seq<char>) -> Seq<char>
    decreases s.len(),
{
    if p.len() == 0 || s.len() < p.len() {
        s
    } else if s.subrange(0, p.len() as int) == p {
        remove_all(s.subrange(p.len() as int, s.len() as int), p)
    } else {
        seq![s[0]] + remove_all(s.drop_first(), p)
    }
}

fn matches_chars_at(s: &[char], p: &[char], at: usize) -> (r: bool)
    requires
        at + p@.len() <= s@.len(),
    ensures
        r == (s@.subrange(at as int, at + p@.len()) == p@),
{
    let n = s.len();
    let mut k: usize = 0;
    while k < p.len()
        invariant
            n == s@.len(),
            at + p@.len() <= s@.len(),
            0 <= k <= p@.len(),
            forall|j: int| 0 <= j < k ==> s@[at + j] == p@[j],
        decreases p@.len() - k,
    {
        if s[at + k] != p[k] {
            assert(s@.subrange(at as int, at + p@.len())[k as int] != p@[k as int]);
            return false;
        }
        k = k + 1;
    }
    assert(s@.subrange(at as int, at + p@.len()) =~= p@);
    true
}

/// `s` with every occurrence of `p` taken out, as `remove_all` says.
fn remove_all_chars(s: &[char], p: &[char]) -> (r: Vec<char>)
    requires
        p@.len() > 0,
    ensures
        r@ == remove_all(s@, p@),
{
    let n = s.len();
    let m = p.len();
    let mut out: Vec<char> = Vec::new();
    let mut i: usize = 0;
    assert(s@.subrange(0, n as int) =~= s@);
    while i < n
        invariant
            n == s@.len(),
            m == p@.len(),
            m > 0,
            i <= n,
            out@ + remove_all(s@.subrange(i as int, n as int), p@) == remove_all(s@, p@),
        decreases n - i,
    {
        let ghost rest = s@.subrange(i as int, n as int);
        if m <= n - i && matches_chars_at(s, p, i) {
            assert(rest.subrange(0, m as int) =~= s@.subrange(i as int, i + m));
            assert(rest.subrange(m as int, rest.len() as int) =~= s@.subrange(i + m, n as int));
            i = i + m;
        } else {
            if m <= n - i {
                assert(rest.subrange(0, m as int) =~= s@.subrange(i as int, i + m));
            }
            assert(rest.drop_first() =~= s@.subrange(i + 1, n as int));
            assert(rest[0] == s@[i as int]);
            out.push(s[i]);
            assert(out@ + remove_all(s@.subrange(i + 1, n as int), p@) =~= out@.drop_last() + (
            seq![s@[i as int]] + remove_all(rest.drop_first(), p@)));
            i = i + 1;
        }
    }
    assert(s@.subrange(n as int, n as int) =~= Seq::<char>::empty());
    assert(out@ + Seq::<char>::empty() =~= out@);
    out
}

pub open spec fn tag_upper() -> Seq<char> {
    seq!['_', 'H', '2', '6', '4']
}

pub open spec fn tag_lower() -> Seq<char> {
    seq!['_', 'h', '2', '6', '4']
}

/// The name of the output file: the input's stem, the profile's suffix and
/// `.mp4`, with every `_H264` and then every `_h264` taken out.
pub open spec fn spec_output_file_name(stem: Seq<char>, subfix: Seq<char>) -> Seq<char> {
    remove_all(remove_all(stem + subfix + seq!['.', 'm', 'p', '4'], tag_upper()), tag_lower())
}

/// The name of the output file, as `spec_output_file_name` says.
pub fn output_file_name(stem: &str, subfix: &str) -> (r: String)
    ensures
        r@ == spec_output_file_name(stem@, subfix@),
{
    let mut joined = crate::text::chars_of(stem);
    let mut tail = crate::text::chars_of(subfix);
    joined.append(&mut tail);
    joined.push('.');
    joined.push('m');
    joined.push('p');
    joined.push('4');
    assert(joined@ =~= stem@ + subfix@ + seq!['.', 'm', 'p', '4']);
    let upper: [char; 5] = ['_', 'H', '2', '6', '4'];
    let lower: [char; 5] = ['_', 'h', '2', '6', '4'];
    assert(upper@ =~= tag_upper());
    assert(lower@ =~= tag_lower());
    let once = remove_all_chars(joined.as_slice(), upper.as_slice());
    let twice = remove_all_chars(once.as_slice(), lower.as_slice());
    assert(twice@.subrange(0, twice@.len() as int) =~= twice@);
    crate::text::string_of_range(twice.as_slice(), 0, twice.len())
}

// ---------------------------------------------------------------------------
// Order of a batch

/// What `natural_sort_rs::natural_cmp` gives for two strings.
pub uninterp spec fn natural_order(a: Seq<char>, b: Seq<char>) -> core::cmp::Ordering;

/// Relies on `natural_sort_rs::natural_cmp`: the natural order of two
/// strings (runs of digits compared as numbers), a function of the strings alone.
#[verifier::external_body]
fn natural_cmp(a: &str, b: &str) -> (r: core::cmp::Ordering)
    ensures
        r == natural_order(a@, b@),
{
    natural_sort_rs::natural_cmp::<str, str>(a, b)
}

/// Whether `a` comes after `b` in natural order.
fn sorts_after(a: &str, b: &str) -> (r: bool)
    ensures
        r == (natural_order(a@, b@) == core::cmp::Ordering::Greater),
{
    match natural_cmp(a, b) {
        core::cmp::Ordering::Greater => true,
        _ => false,
    }
}

/// The natural order never puts each of two strings after the other.
pub open spec fn natural_order_antisymmetric() -> bool {
    forall|a: Seq<char>, b: Seq<char>|
        #![trigger natural_order(a, b), natural_order(b, a)]
        natural_order(a, b) == core::cmp::Ordering::Greater ==> natural_order(b, a)
            != core::cmp::Ordering::Greater
}

/// No neighbour in `s` comes after the next one in natural order.
pub open spec fn naturally_sorted(s: Seq<String>) -> bool {
    forall|i: int, j: int|
        #![trigger natural_order(s[i]@, s[j]@)]
        0 <= i && j == i + 1 && j < s.len() ==> natural_order(s[i]@, s[j]@)
            != core::cmp::Ordering::Greater
}

proof fn lemma_insert_keeps_sorted(before: Seq<String>, j: int, x: String)
    requires
        0 <= j <= before.len(),
        natural_order_antisymmetric() ==> naturally_sorted(before),
        j > 0 ==> natural_order(before[j - 1]@, x@) != core::cmp::Ordering::Greater,
        forall|k: int|
            j <= k < before.len() ==> natural_order(#[trigger] before[k]@, x@)
                == core::cmp::Ordering::Greater,
    ensures
        natural_order_antisymmetric() ==> naturally_sorted(before.insert(j, x)),
{
    let after = before.insert(j, x);
    if natural_order_antisymmetric() {
        assert forall|k: int, l: int| 0 <= k && l == k + 1 && l < after.len() implies #[trigger] natural_order(
            after[k]@,
            after[l]@,
        ) != core::cmp::Ordering::Greater by {
            if k < j - 1 {
                assert(after[k] == before[k] && after[k + 1] == before[k + 1]);
            } else if k == j - 1 {
                assert(after[k] == before[k] && after[k + 1] == x);
            } else if k == j {
                assert(after[k] == x && after[k + 1] == before[k]);
                assert(natural_order(before[k]@, x@) == core::cmp::Ordering::Greater);
            } else {
                assert(after[k] == before[k - 1] && after[k + 1] == before[k]);
            }
        }
    }
}

/// `x` put into `s` right after the last element that does not come after
/// it in natural order: behind every element that compares equal to it.
pub open spec fn insert_naturally(s: Seq<String>, x: String) -> Seq<String>
    decreases s.len(),
{
    if s.len() > 0 && natural_order(s.last()@, x@) == core::cmp::Ordering::Greater {
        insert_naturally(s.drop_last(), x).push(s.last())
    } else {
        s.push(x)
    }
}

/// The stable insertion sort of `s` in natural order: each element in turn
/// is put in behind those before it that it does not precede, so elements
/// that compare equal keep their order.
pub open spec fn spec_sort_naturally(s: Seq<String>) -> Seq<String>
    decreases s.len(),
{
    if s.len() == 0 {
        Seq::empty()
    } else {
        insert_naturally(spec_sort_naturally(s.drop_last()), s.last())
    }
}

/// The paths in natural order, by a stable insertion sort, as
/// `spec_sort_naturally` says. The result holds the same paths; it is sorted
/// whenever the order is antisymmetric.
pub fn sort_naturally(paths: &Vec<String>) -> (r: Vec<String>)
    ensures
        r@ == spec_sort_naturally(paths@),
        r@.to_multiset() == paths@.to_multiset(),
        natural_order_antisymmetric() ==> naturally_sorted(r@),
{
    let mut out: Vec<String> = Vec::new();
    let mut i: usize = 0;
    assert(out@ =~= paths@.subrange(0, 0));
    while i < paths.len()
        invariant
            0 <= i <= paths@.len(),
            out@ == spec_sort_naturally(paths@.subrange(0, i as int)),
            out@.to_multiset() == paths@.subrange(0, i as int).to_multiset(),
            natural_order_antisymmetric() ==> naturally_sorted(out@),
        decreases paths@.len() - i,
    {
        let x = paths[i].clone();
        let mut j: usize = out.len();
        assert(out@.subrange(0, out@.len() as int) =~= out@);
        assert(out@.subrange(out@.len() as int, out@.len() as int) =~= Seq::<String>::empty());
        while j > 0 && sorts_after(out[j - 1].as_str(), x.as_str())
            invariant
                0 <= j <= out@.len(),
                insert_naturally(out@, x) == insert_naturally(out@.subrange(0, j as int), x)
                    + out@.subrange(j as int, out@.len() as int),
                forall|k: int|
                    j <= k < out@.len() ==> natural_order(#[trigger] out@[k]@, x@)
                        == core::cmp::Ordering::Greater,
            decreases j,
        {
            let ghost pre = out@.subrange(0, j as int);
            assert(pre.drop_last() =~= out@.subrange(0, j - 1));
            assert(insert_naturally(pre.drop_last(), x).push(pre.last()) + out@.subrange(
                j as int,
                out@.len() as int,
            ) =~= insert_naturally(out@.subrange(0, j - 1), x) + out@.subrange(
                j - 1,
                out@.len() as int,
            ));
            j = j - 1;
        }
        assert(j > 0 ==> natural_order(out@[j - 1]@, x@) != core::cmp::Ordering::Greater);
        assert(insert_naturally(out@.subrange(0, j as int), x) == out@.subrange(0, j as int).push(
            x,
        ));
        assert(out@.insert(j as int, x) =~= out@.subrange(0, j as int).push(x) + out@.subrange(
            j as int,
            out@.len() as int,
        ));
        assert(paths@.subrange(0, i + 1).drop_last() =~= paths@.subrange(0, i as int));
        let ghost before = out@;
        out.insert(j, x);
        proof {
            vstd::seq_lib::to_multiset_insert(before, j as int, x);
            vstd::seq_lib::to_multiset_build(paths@.subrange(0, i as int), paths@[i as int]);
            assert(paths@.subrange(0, i + 1) =~= paths@.subrange(0, i as int).push(
                paths@[i as int],
            ));
            lemma_insert_keeps_sorted(before, j as int, x);
        }
        i = i + 1;
    }
    assert(paths@.subrange(0, paths@.len() as int) =~= paths@);
    out
}

} // verus!
