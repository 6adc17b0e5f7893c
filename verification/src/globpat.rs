//! Glob patterns for the ignore ruleset: a glob is translated to an
//! anchored regular expression (escaping every metacharacter except `*`
//! and `?`), and matching goes through the regex engine.

use vstd::prelude::*;
use crate::bytesutil::str_chars;
use crate::bytesutil::chars_to_string;

verus! {

/// Whether the regular expression `pattern` matches `text`. The value is
/// fixed by the regex engine; this library relies only on it being a
/// function of the two strings. A pattern that does not compile matches
/// nothing.
pub uninterp spec fn regex_accepts(pattern: Seq<char>, text: Seq<char>) -> bool;

/// Relies on `regex::Regex::new` and `Regex::is_match`: whether the
/// compiled pattern matches the text; a pattern that fails to compile
/// matches nothing.
#[verifier::external_body]
fn regex_is_match(pattern: &str, text: &str) -> (r: bool)
    ensures
        r == regex_accepts(pattern@, text@),
{
    match regex::Regex::new(pattern) {
        Ok(re) => re.is_match(text),
        Err(_) => false,
    }
}

/// A regex metacharacter that a glob must escape.
pub open spec fn is_regex_meta(c: char) -> bool {
    c == '.' || c == '+' || c == '(' || c == ')' || c == '|' || c == '{' || c == '}' || c == '['
        || c == ']' || c == '^' || c == '$' || c == '\\'
}

/// The regex fragment for one glob character: `*` becomes `.*`, `?`
/// becomes `.`, metacharacters are escaped, anything else passes through.
pub open spec fn glob_regex_char(c: char) -> Seq<char> {
    if c == '*' {
        seq!['.', '*']
    } else if c == '?' {
        seq!['.']
    } else if is_regex_meta(c) {
        seq!['\\', c]
    } else {
        seq![c]
    }
}

/// The anchored regex source for a glob.
pub open spec fn spec_glob_regex(g: Seq<char>) -> Seq<char> {
    seq!['^'] + glob_regex_body(g, 0) + seq!['$']
}

/// The regex fragments of the glob's characters from index `i` on.
pub open spec fn glob_regex_body(g: Seq<char>, i: int) -> Seq<char>
    decreases g.len() - i when 0 <= i <= g.len()
{
    if i >= g.len() {
        Seq::empty()
    } else {
        glob_regex_char(g[i]) + glob_regex_body(g, i + 1)
    }
}

/// Translate a glob to an anchored regular expression source.
pub fn glob_to_regex(glob: &str) -> (r: String)
    ensures
        r@ == spec_glob_regex(glob@),
{
    let cs = str_chars(glob);
    let ghost g = cs@;
    let mut out: Vec<char> = Vec::new();
    out.push('^');
    let ghost mut acc: Seq<char> = Seq::empty();
    proof {
        assert(out@ =~= seq!['^'] + acc);
    }
    let mut i: usize = 0;
    while i < cs.len()
        invariant
            i <= cs@.len(),
            cs@ == g,
            out@ == seq!['^'] + acc,
            glob_regex_body(g, 0) == acc + glob_regex_body(g, i as int),
        decreases cs@.len() - i,
    {
        let c = cs[i];
        let ghost before = out@;
        if c == '*' {
            out.push('.');
            out.push('*');
        } else if c == '?' {
            out.push('.');
        } else if c == '.' || c == '+' || c == '(' || c == ')' || c == '|' || c == '{' || c == '}'
            || c == '[' || c == ']' || c == '^' || c == '$' || c == '\\' {
            out.push('\\');
            out.push(c);
        } else {
            out.push(c);
        }
        proof {
            assert(out@ =~= before + glob_regex_char(c));
            assert(glob_regex_body(g, i as int) == glob_regex_char(c) + glob_regex_body(
                g,
                i as int + 1,
            ));
            acc = acc + glob_regex_char(c);
            assert(out@ =~= seq!['^'] + acc);
            assert(glob_regex_body(g, 0) =~= acc + glob_regex_body(g, i as int + 1));
        }
        i = i + 1;
    }
    proof {
        assert(glob_regex_body(g, i as int) =~= Seq::<char>::empty());
        assert(acc + Seq::<char>::empty() =~= acc);
        assert(out@.push('$') =~= spec_glob_regex(g));
    }
    out.push('$');
    chars_to_string(&out)
}

/// Does some ignore pattern, read as a glob, match the relative path?
pub open spec fn spec_any_glob_matches(patterns: Seq<Seq<char>>, path: Seq<char>) -> bool {
    exists|i: int|
        0 <= i < patterns.len() && regex_accepts(spec_glob_regex(#[trigger] patterns[i]), path)
}

/// Whether the scanner skips a file: an ignore pattern matches its
/// relative path, it is a symbolic link, or it is larger than 5 MiB.
pub fn should_skip(rel_path: &str, patterns: &Vec<String>, is_symlink: bool, file_len: u64) -> (r:
    bool)
    ensures
        r == (spec_any_glob_matches(patterns@.map_values(|p: String| p@), rel_path@) || is_symlink
            || file_len > 5242880),
{
    let ghost pv = patterns@.map_values(|p: String| p@);
    let mut i: usize = 0;
    while i < patterns.len()
        invariant
            i <= patterns@.len(),
            pv == patterns@.map_values(|p: String| p@),
            forall|j: int|
                0 <= j < i ==> !regex_accepts(spec_glob_regex(#[trigger] pv[j]), rel_path@),
        decreases patterns@.len() - i,
    {
        let re = glob_to_regex(patterns[i].as_str());
        if regex_is_match(re.as_str(), rel_path) {
            proof {
                assert(pv[i as int] == patterns@[i as int]@);
                assert(regex_accepts(spec_glob_regex(pv[i as int]), rel_path@));
            }
            return true;
        }
        proof {
            assert(pv[i as int] == patterns@[i as int]@);
        }
        i = i + 1;
    }
    if is_symlink {
        return true;
    }
    file_len > 5242880
}

} // verus!
