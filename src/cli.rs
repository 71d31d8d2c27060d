//! The command line's small rules: boolean flags, the `--paths` pattern
//! syntax, output line prefixes and the exit status.

use crate::paths::{pattern_view, PatternView};
use crate::text::string_views;
use vstd::prelude::*;
use vstd::string::StrSliceExecFns;

verus! {

broadcast use vstd::string::group_string_axioms;

/// `s` cut at each occurrence of `sep`, found left to right without overlap,
/// scanning from position `i` with the current piece starting at `start`.
pub open spec fn split_from(s: Seq<char>, sep: Seq<char>, start: int, i: int) -> Seq<Seq<char>>
    decreases s.len() - i,
{
    if sep.len() == 0 || i < start || i + sep.len() > s.len() {
        seq![s.subrange(start, s.len() as int)]
    } else if s.subrange(i, i + sep.len()) == sep {
        seq![s.subrange(start, i)] + split_from(s, sep, i + sep.len(), i + sep.len())
    } else {
        split_from(s, sep, start, i + 1)
    }
}

/// The pieces of `s` between occurrences of `sep`.
pub open spec fn split_on(s: Seq<char>, sep: Seq<char>) -> Seq<Seq<char>> {
    split_from(s, sep, 0, 0)
}

/// The pattern a `--paths` value denotes: elements separated by `..`, the
/// alternatives of an element separated by `|`.
pub open spec fn pattern_of(text: Seq<char>) -> PatternView {
    split_on(text, ".."@).map_values(|e: Seq<char>| split_on(e, "|"@))
}

fn window_matches(s: &str, sep: &str, i: usize, n: usize, m: usize) -> (r: bool)
    requires
        n == s@.len(),
        m == sep@.len(),
        i + m <= n,
    ensures
        r == (s@.subrange(i as int, i + m) == sep@),
{
    let mut j: usize = 0;
    while j < m
        invariant
            n == s@.len(),
            m == sep@.len(),
            i + m <= n,
            j <= m,
            forall|k: int| 0 <= k < j ==> s@[i + k] == sep@[k],
        decreases m - j,
    {
        if s.get_char(i + j) != sep.get_char(j) {
            assert(s@.subrange(i as int, i + m)[j as int] != sep@[j as int]);
            return false;
        }
        j = j + 1;
    }
    assert(s@.subrange(i as int, i + m) =~= sep@);
    true
}

fn split_str(s: &str, sep: &str) -> (r: Vec<String>)
    requires
        sep@.len() > 0,
    ensures
        string_views(r@) == split_on(s@, sep@),
{
    let n = s.unicode_len();
    let m = sep.unicode_len();
    let mut pieces: Vec<String> = Vec::new();
    let mut start: usize = 0;
    let mut i: usize = 0;
    while n - i >= m
        invariant
            n == s@.len(),
            m == sep@.len(),
            m > 0,
            start <= i <= n,
            string_views(pieces@) + split_from(s@, sep@, start as int, i as int) == split_on(s@, sep@),
        decreases n - i,
    {
        if window_matches(s, sep, i, n, m) {
            let ghost prior = string_views(pieces@);
            let piece = s.substring_char(start, i).to_string();
            pieces.push(piece);
            assert(string_views(pieces@) =~= prior.push(s@.subrange(start as int, i as int)));
            assert(string_views(pieces@) + split_from(s@, sep@, (i + m) as int, (i + m) as int) =~= prior
                + split_from(s@, sep@, start as int, i as int));
            start = i + m;
            i = i + m;
        } else {
            i = i + 1;
        }
    }
    let ghost prior = string_views(pieces@);
    let last = s.substring_char(start, n).to_string();
    pieces.push(last);
    assert(string_views(pieces@) =~= prior + split_from(s@, sep@, start as int, i as int));
    pieces
}

/// Parses a `--paths` pattern: elements separated by `..`, alternatives
/// within an element separated by `|`.
pub fn parse_path_pattern(text: &str) -> (r: Vec<Vec<String>>)
    ensures
        pattern_view(r@) == pattern_of(text@),
{
    proof {
        reveal_strlit("..");
        reveal_strlit("|");
    }
    let elements = split_str(text, "..");
    let ghost ev = string_views(elements@);
    let mut pattern: Vec<Vec<String>> = Vec::new();
    let mut i: usize = 0;
    while i < elements.len()
        invariant
            ev == string_views(elements@),
            ev == split_on(text@, ".."@),
            "|"@.len() == 1,
            i <= elements@.len(),
            pattern_view(pattern@) == ev.take(i as int).map_values(|e: Seq<char>| split_on(e, "|"@)),
        decreases elements@.len() - i,
    {
        let ghost prior = pattern@;
        let alternatives = split_str(elements[i].as_str(), "|");
        pattern.push(alternatives);
        assert(ev[i as int] == elements@[i as int]@);
        assert(pattern_view(pattern@) =~= pattern_view(prior).push(string_views(alternatives@)));
        assert(ev.take(i + 1).map_values(|e: Seq<char>| split_on(e, "|"@)) =~= ev.take(i as int).map_values(
            |e: Seq<char>| split_on(e, "|"@),
        ).push(split_on(ev[i as int], "|"@)));
        i = i + 1;
    }
    assert(ev.take(elements@.len() as int) =~= ev);
    pattern
}

/// The lower-case form of a string, as `str::to_lowercase` gives it.
pub uninterp spec fn lower_of(s: Seq<char>) -> Seq<char>;

/// Relies on `str::to_lowercase`: the result depends on the characters alone.
#[verifier::external_body]
fn lowercase(s: &str) -> (r: String)
    ensures
        r@ == lower_of(s@),
{
    s.to_lowercase()
}

/// The flag value a lower-cased word spells: `true`, `1` or `yes` for true,
/// `false`, `0` or `no` for false; any other word is an error naming `word`.
pub open spec fn bool_word(lowered: Seq<char>, word: Seq<char>) -> Result<bool, Seq<char>> {
    if lowered == "true"@ || lowered == "1"@ || lowered == "yes"@ {
        Ok(true)
    } else if lowered == "false"@ || lowered == "0"@ || lowered == "no"@ {
        Ok(false)
    } else {
        Err("Invalid boolean value: "@ + word)
    }
}

fn is_word(s: &String, word: &str) -> (r: bool)
    ensures
        r == (s@ == word@),
{
    *s == word.to_string()
}

/// The flag value of an already lower-cased word; errors name `word`.
pub fn bool_from_lowercase(lowered: &str, word: &str) -> (r: Result<bool, String>)
    ensures
        match (r, bool_word(lowered@, word@)) {
            (Ok(b), Ok(c)) => b == c,
            (Err(e), Err(m)) => e@ == m,
            _ => false,
        },
{
    let l = lowered.to_string();
    if is_word(&l, "true") || is_word(&l, "1") || is_word(&l, "yes") {
        Ok(true)
    } else if is_word(&l, "false") || is_word(&l, "0") || is_word(&l, "no") {
        Ok(false)
    } else {
        let mut msg = "Invalid boolean value: ".to_string();
        msg.append(word);
        Err(msg)
    }
}

/// Parses a boolean flag value, ignoring case.
pub fn parse_bool_arg(s: &str) -> (r: Result<bool, String>)
    ensures
        match (r, bool_word(lower_of(s@), s@)) {
            (Ok(b), Ok(c)) => b == c,
            (Err(e), Err(m)) => e@ == m,
            _ => false,
        },
{
    let lowered = lowercase(s);
    bool_from_lowercase(lowered.as_str(), s)
}

/// Whether output lines carry the file name: as asked, else when more than
/// one file is analyzed.
pub fn show_filename(asked: Option<bool>, file_count: usize) -> (r: bool)
    ensures
        r == match asked {
            Some(b) => b,
            None => file_count > 1,
        },
{
    match asked {
        Some(b) => b,
        None => file_count > 1,
    }
}

/// One output line: `<file>:<text>` with the file name shown, else the text.
pub fn output_line(filename: &str, show: bool, text: &str) -> (r: String)
    ensures
        r@ == if show {
            filename@ + ":"@ + text@
        } else {
            text@
        },
{
    proof {
        reveal_strlit(":");
    }
    if show {
        let mut line = filename.to_string();
        line.append(":");
        line.append(text);
        line
    } else {
        text.to_string()
    }
}

/// Whether the run fails: some filter or pattern was given and no file
/// produced any output.
pub fn run_failed(src_count: usize, dst_count: usize, has_pattern: bool, total_outputs: usize) -> (r: bool)
    ensures
        r == ((src_count > 0 || dst_count > 0 || has_pattern) && total_outputs == 0),
{
    (src_count > 0 || dst_count > 0 || has_pattern) && total_outputs == 0
}

} // verus!
