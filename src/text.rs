use vstd::prelude::*;

verus! {

/// Whether two strings hold the same characters.
pub fn same_text(a: &str, b: &str) -> (r: bool)
    ensures
        r == (a@ == b@),
{
    let n = a.unicode_len();
    if n != b.unicode_len() {
        return false;
    }
    let mut i: usize = 0;
    while i < n
        invariant
            n == a@.len(),
            n == b@.len(),
            i <= n,
            forall|j: int| 0 <= j < i ==> a@[j] == b@[j],
        decreases n - i,
    {
        if a.get_char(i) != b.get_char(i) {
            return false;
        }
        i = i + 1;
    }
    assert(a@ =~= b@);
    true
}


/// The text `s` with each run of a newline and the newlines, tabs and spaces
/// that follow it replaced by one space; `in_run` says that such a run is
/// already open before `s`.
pub open spec fn collapse_from(s: Seq<char>, in_run: bool) -> Seq<char>
    decreases s.len(),
{
    if s.len() == 0 {
        s
    } else if in_run && (s[0] == '\n' || s[0] == '\t' || s[0] == ' ') {
        collapse_from(s.drop_first(), true)
    } else if s[0] == '\n' {
        seq![' '] + collapse_from(s.drop_first(), true)
    } else {
        seq![s[0]] + collapse_from(s.drop_first(), false)
    }
}

/// The text `s` with each run of a newline and the newlines, tabs and spaces
/// that follow it replaced by one space.
pub open spec fn newline_runs_collapsed(s: Seq<char>) -> Seq<char> {
    collapse_from(s, false)
}

/// A character of the Unicode property `White_Space`, the white space that
/// `str::trim` removes.
pub open spec fn is_white_space(c: char) -> bool {
    let u = c as u32;
    (9 <= u <= 13) || u == 32 || u == 0x85 || u == 0xA0 || u == 0x1680 || (0x2000 <= u
        <= 0x200A) || u == 0x2028 || u == 0x2029 || u == 0x202F || u == 0x205F || u == 0x3000
}

/// `s` without its leading white space.
pub open spec fn trim_start(s: Seq<char>) -> Seq<char>
    decreases s.len(),
{
    if s.len() > 0 && is_white_space(s[0]) {
        trim_start(s.drop_first())
    } else {
        s
    }
}

/// `s` without its trailing white space.
pub open spec fn trim_end(s: Seq<char>) -> Seq<char>
    decreases s.len(),
{
    if s.len() > 0 && is_white_space(s.last()) {
        trim_end(s.drop_last())
    } else {
        s
    }
}

/// `s` without its leading and trailing white space.
pub open spec fn trimmed(s: Seq<char>) -> Seq<char> {
    trim_end(trim_start(s))
}

/// A newline and the newlines, tabs and spaces that follow it.
pub const NEWLINE_RUN: &'static str = "\n[\n\t ]*";

/// Relies on `regex::Regex::new` and `regex::Regex::replace_all`: the pattern
/// `\n[\n\t ]*` compiles, and each of its leftmost matches, which is as long
/// as the greedy repetition makes it, is replaced by one space (the
/// replacement holds no `$`).
#[verifier::external_body]
fn regex_replace_all(pattern: &str, s: &str, with: &str) -> (r: String)
    requires
        pattern@ == NEWLINE_RUN@,
        with@ == " "@,
    ensures
        r@ == newline_runs_collapsed(s@),
{
    regex::Regex::new(pattern).unwrap().replace_all(s, with).into_owned()
}

/// Relies on `str::trim`: the text without its leading and trailing
/// characters of the Unicode property `White_Space`.
#[verifier::external_body]
pub(crate) fn trim(s: &str) -> (r: &str)
    ensures
        r@ == trimmed(s@),
{
    s.trim()
}

/// What a text node gives to the title of a heading.
pub open spec fn normalized(s: Seq<char>) -> Seq<char> {
    trimmed(newline_runs_collapsed(s))
}

pub fn normalize(s: &str) -> (r: String)
    ensures
        r@ == normalized(s@),
{
    let c = regex_replace_all(NEWLINE_RUN, s, " ");
    String::from_str(trim(c.as_str()))
}

} // verus!
