//! Text helpers shared by the analyses: joining, ordering and sorting strings.

use vstd::prelude::*;

verus! {

broadcast use vstd::string::group_string_axioms;

/// Lexicographic order on strings, characters compared by code point.
pub open spec fn str_le(a: Seq<char>, b: Seq<char>) -> bool
    decreases a.len(),
{
    if a.len() == 0 {
        true
    } else if b.len() == 0 {
        false
    } else if a[0] == b[0] {
        str_le(a.drop_first(), b.drop_first())
    } else {
        (a[0] as u32) < (b[0] as u32)
    }
}

/// Every string is at most every later one.
pub open spec fn sorted_strs(s: Seq<Seq<char>>) -> bool {
    forall|i: int, j: int| 0 <= i < j < s.len() ==> str_le(s[i], s[j])
}

/// The character sequences of a list of strings.
pub open spec fn string_views(v: Seq<String>) -> Seq<Seq<char>> {
    v.map_values(|s: String| s@)
}

/// `parts` separated by `sep`.
pub open spec fn join(parts: Seq<Seq<char>>, sep: Seq<char>) -> Seq<char>
    decreases parts.len(),
{
    if parts.len() == 0 {
        Seq::empty()
    } else if parts.len() == 1 {
        parts[0]
    } else {
        join(parts.drop_last(), sep) + sep + parts.last()
    }
}

/// Relies on `slice::sort` for `String`: the same strings come back, ordered
/// as `Ord for str` documents it (lexicographically, by code point).
#[verifier::external_body]
pub(crate) fn sort_strings(v: &mut Vec<String>)
    ensures
        string_views(final(v)@).to_multiset() == string_views(old(v)@).to_multiset(),
        sorted_strs(string_views(final(v)@)),
{
    v.sort();
}

/// Whether `list` holds a string equal to `s`.
pub fn contains_str(list: &[String], s: &String) -> (r: bool)
    ensures
        r == string_views(list@).contains(s@),
{
    let mut i: usize = 0;
    while i < list.len()
        invariant
            i <= list@.len(),
            forall|j: int| 0 <= j < i ==> list@[j]@ != s@,
        decreases list@.len() - i,
    {
        if list[i] == *s {
            assert(string_views(list@)[i as int] == s@);
            return true;
        }
        i = i + 1;
    }
    assert(!string_views(list@).contains(s@)) by {
        if string_views(list@).contains(s@) {
            let k = choose|k: int| 0 <= k < string_views(list@).len() && string_views(list@)[k] == s@;
            assert(list@[k]@ == s@);
        }
    }
    false
}

/// Every set of `u32` values is finite and holds at most 2^32 of them.
pub proof fn lemma_u32_set_bounded(s: Set<u32>)
    ensures
        s.finite(),
        s.len() <= 0x1_0000_0000,
{
    let range = vstd::set_lib::set_int_range(0, 0x1_0000_0000);
    let all = Set::new(|x: u32| true);
    vstd::set_lib::lemma_int_range(0, 0x1_0000_0000);
    assert(range.map(|i: int| i as u32) =~= all) by {
        assert forall|x: u32| all.contains(x) implies range.map(|i: int| i as u32).contains(x) by {
            assert(range.contains(x as int));
        }
    }
    vstd::set_lib::lemma_map_size_bound(range, all, |i: int| i as u32);
    vstd::set_lib::lemma_len_subset(s, all);
}

/// The decimal digit for `d`, for `d` below ten.
pub open spec fn digit_char(d: nat) -> char {
    if d == 0 { '0' } else if d == 1 { '1' } else if d == 2 { '2' } else if d == 3 { '3' }
    else if d == 4 { '4' } else if d == 5 { '5' } else if d == 6 { '6' } else if d == 7 { '7' }
    else if d == 8 { '8' } else { '9' }
}

/// The decimal numeral of `n`, without leading zeros.
pub open spec fn decimal(n: nat) -> Seq<char>
    decreases n,
{
    if n < 10 {
        seq![digit_char(n)]
    } else {
        decimal(n / 10).push(digit_char(n % 10))
    }
}

fn digit_str(d: u32) -> (r: &'static str)
    requires
        d < 10,
    ensures
        r@ == seq![digit_char(d as nat)],
{
    proof {
        reveal_strlit("0");
        reveal_strlit("1");
        reveal_strlit("2");
        reveal_strlit("3");
        reveal_strlit("4");
        reveal_strlit("5");
        reveal_strlit("6");
        reveal_strlit("7");
        reveal_strlit("8");
        reveal_strlit("9");
    }
    if d == 0 { "0" } else if d == 1 { "1" } else if d == 2 { "2" } else if d == 3 { "3" }
    else if d == 4 { "4" } else if d == 5 { "5" } else if d == 6 { "6" } else if d == 7 { "7" }
    else if d == 8 { "8" } else { "9" }
}

/// Appends the decimal numeral of `n` to `s`.
pub fn append_decimal(s: &mut String, n: u32)
    ensures
        final(s)@ == old(s)@ + decimal(n as nat),
    decreases n,
{
    if n >= 10 {
        append_decimal(s, n / 10);
    }
    s.append(digit_str(n % 10));
}

/// The first index at which `s` holds `x`, or -1 when it holds none.
pub open spec fn first_index_of<A>(s: Seq<A>, x: A) -> int {
    if exists|i: int| 0 <= i < s.len() && s[i] == x {
        choose|i: int| 0 <= i < s.len() && s[i] == x && forall|j: int| 0 <= j < i ==> s[j] != x
    } else {
        -1
    }
}

/// `i` is where `x` first occurs in `s`.
pub proof fn lemma_first_index_at<A>(s: Seq<A>, x: A, i: int)
    requires
        0 <= i < s.len(),
        s[i] == x,
        forall|j: int| 0 <= j < i ==> s[j] != x,
    ensures
        first_index_of(s, x) == i,
{
    let k = choose|k: int| 0 <= k < s.len() && s[k] == x && forall|j: int| 0 <= j < k ==> s[j] != x;
    assert(0 <= k < s.len() && s[k] == x && forall|j: int| 0 <= j < k ==> s[j] != x);
    if k < i {
        assert(s[k] != x);
    } else if k > i {
        assert(s[i] != x);
    }
}

/// Where `list` first holds a string equal to `s`.
pub fn find_str(list: &[String], s: &String) -> (r: Option<usize>)
    ensures
        match r {
            Some(i) => first_index_of(string_views(list@), s@) == i as int && i < list@.len(),
            None => first_index_of(string_views(list@), s@) == -1,
        },
{
    let ghost v = string_views(list@);
    let mut i: usize = 0;
    while i < list.len()
        invariant
            v == string_views(list@),
            i <= list@.len(),
            forall|j: int| 0 <= j < i ==> v[j] != s@,
        decreases list@.len() - i,
    {
        if list[i] == *s {
            proof {
                lemma_first_index_at(v, s@, i as int);
            }
            return Some(i);
        }
        i = i + 1;
    }
    assert(!(exists|i: int| 0 <= i < v.len() && v[i] == s@));
    None
}

} // verus!
