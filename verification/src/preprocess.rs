//! Source-text preparation ahead of parsing: compiler-directive tails
//! are removed, and attribute delimiters are rewritten as comment
//! delimiters so that the parser treats them as comments.

use vstd::prelude::*;

verus! {

/// The text `s[i..]` with every directive tail removed: from each
/// backtick to the end of its line, the line break kept.  `active` says
/// whether a backtick is already open on the current line.
pub open spec fn stripped_from(s: Seq<char>, i: int, active: bool) -> Seq<char>
    decreases s.len() - i
        when i >= 0
{
    if i >= s.len() {
        Seq::<char>::empty()
    } else if s[i] == '\n' {
        seq!['\n'] + stripped_from(s, i + 1, false)
    } else if active || s[i] == '`' {
        stripped_from(s, i + 1, true)
    } else {
        seq![s[i]] + stripped_from(s, i + 1, false)
    }
}

/// The text with every compiler-directive tail removed: from each
/// backtick to the end of its line, the line break kept.
pub open spec fn stripped(s: Seq<char>) -> Seq<char> {
    stripped_from(s, 0, false)
}

/// Removes every compiler-directive tail: from each backtick to the end
/// of its line, keeping the line break.
pub fn strip_directive_lines(code: &str) -> (r: String)
    ensures
        r@ == stripped(code@),
{
    let len = code.unicode_len();
    let mut out = String::new();
    let mut active = false;
    let mut i: usize = 0;
    proof {
        assert(out@ + stripped_from(code@, 0, false) =~= stripped(code@));
    }
    while i < len
        invariant
            len == code@.len(),
            i <= len,
            out@ + stripped_from(code@, i as int, active) == stripped(code@),
        decreases len - i,
    {
        let ghost out0 = out@;
        let ghost act0 = active;
        let c = code.get_char(i);
        if c == '\n' {
            out.append(code.substring_char(i, i + 1));
            active = false;
            proof {
                assert(code@.subrange(i as int, i + 1) =~= seq!['\n']);
            }
        } else if active {
            // inside a directive tail: the character is dropped
        } else if c == '`' {
            active = true;
        } else {
            out.append(code.substring_char(i, i + 1));
            proof {
                assert(code@.subrange(i as int, i + 1) =~= seq![code@[i as int]]);
            }
        }
        i += 1;
        proof {
            if code@[i - 1] == '\n' {
                assert(stripped_from(code@, i - 1, act0) == seq!['\n'] + stripped_from(
                    code@,
                    i as int,
                    false,
                ));
                assert(out@ + stripped_from(code@, i as int, active) =~= out0 + stripped_from(
                    code@,
                    i - 1,
                    act0,
                ));
            } else if act0 || code@[i - 1] == '`' {
                assert(stripped_from(code@, i - 1, act0) == stripped_from(code@, i as int, true));
            } else {
                assert(stripped_from(code@, i - 1, act0) == seq![code@[i - 1]] + stripped_from(
                    code@,
                    i as int,
                    false,
                ));
                assert(out@ + stripped_from(code@, i as int, active) =~= out0 + stripped_from(
                    code@,
                    i - 1,
                    act0,
                ));
            }
        }
    }
    proof {
        assert(stripped_from(code@, len as int, active) =~= Seq::<char>::empty());
        assert(out@ + Seq::<char>::empty() =~= out@);
    }
    out
}

/// The text with every occurrence of the two characters `a`, `b`
/// replaced by `with`, left to right, non-overlapping.
pub open spec fn replaced_pair(s: Seq<char>, a: char, b: char, with: Seq<char>) -> Seq<char>
    decreases s.len(),
{
    if s.len() >= 2 && s[0] == a && s[1] == b {
        with + replaced_pair(s.skip(2), a, b, with)
    } else if s.len() == 0 {
        s
    } else {
        seq![s[0]] + replaced_pair(s.skip(1), a, b, with)
    }
}

/// Replaces every occurrence of the two characters `a`, `b` by `with`,
/// left to right, non-overlapping.
pub fn replace_pair(code: &str, a: char, b: char, with: &str) -> (r: String)
    ensures
        r@ == replaced_pair(code@, a, b, with@),
{
    let len = code.unicode_len();
    let mut out = String::new();
    let mut i: usize = 0;
    proof {
        assert(code@.skip(0) =~= code@);
        assert(out@ + replaced_pair(code@, a, b, with@) =~= replaced_pair(code@, a, b, with@));
    }
    while i < len
        invariant
            len == code@.len(),
            i <= len,
            out@ + replaced_pair(code@.skip(i as int), a, b, with@) == replaced_pair(
                code@,
                a,
                b,
                with@,
            ),
        decreases len - i,
    {
        let ghost out0 = out@;
        let ghost suf = code@.skip(i as int);
        proof {
            assert(suf.len() == len - i);
            assert(forall|k: int| 0 <= k < suf.len() ==> #[trigger] suf[k] == code@[i + k]);
        }
        let c = code.get_char(i);
        if i + 1 < len && c == a && code.get_char(i + 1) == b {
            out.append(with);
            i += 2;
            proof {
                assert(suf[0] == a && suf[1] == b);
                assert(replaced_pair(suf, a, b, with@) == with@ + replaced_pair(
                    suf.skip(2),
                    a,
                    b,
                    with@,
                ));
                assert(suf.skip(2) =~= code@.skip(i as int));
                assert(out@ + replaced_pair(code@.skip(i as int), a, b, with@) =~= out0
                    + replaced_pair(suf, a, b, with@));
            }
        } else {
            out.append(code.substring_char(i, i + 1));
            i += 1;
            proof {
                assert(suf[0] == code@[i - 1]);
                assert(!(suf.len() >= 2 && suf[0] == a && suf[1] == b));
                assert(replaced_pair(suf, a, b, with@) == seq![suf[0]] + replaced_pair(
                    suf.skip(1),
                    a,
                    b,
                    with@,
                ));
                assert(suf.skip(1) =~= code@.skip(i as int));
                assert(code@.subrange(i - 1, i as int) =~= seq![code@[i - 1]]);
                assert(out@ + replaced_pair(code@.skip(i as int), a, b, with@) =~= out0
                    + replaced_pair(suf, a, b, with@));
            }
        }
    }
    proof {
        assert(code@.skip(len as int) =~= Seq::<char>::empty());
        assert(out@ + Seq::<char>::empty() =~= out@);
    }
    out
}

/// Rewrites attribute delimiters as comment delimiters: every `(*` is
/// replaced by `/*`, then every `*)` of the result by `*/`.
pub fn attributes_as_comments(code: &str) -> (r: String)
    ensures
        r@ == replaced_pair(replaced_pair(code@, '(', '*', "/*"@), '*', ')', "*/"@),
{
    let opened = replace_pair(code, '(', '*', "/*");
    replace_pair(opened.as_str(), '*', ')', "*/")
}

} // verus!
