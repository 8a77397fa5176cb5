//! Conversion of the style table's directives into terminal escape
//! sequences.  A directive is whitespace-separated `command=value`
//! pairs: `ctermfg` selects a 256-colour foreground, `cterm` a
//! comma-separated list of font attributes, and `guifg` is ignored.

use vstd::prelude::*;

use crate::strutil::join_spec;
use crate::strutil::join_with;
use crate::strutil::split_on;
use crate::strutil::split_spec;
use crate::strutil::str_eq;
use crate::syntax_matcher::SyntaxMatcher;

verus! {

/// An error in a style directive, reported instead of an escape table.
#[derive(Debug, PartialEq, Eq)]
pub enum ColorError {
    /// A command without `=` and a value.
    MissingValue(String),
    /// An unknown font attribute in a `cterm` value.
    UnknownCterm(String),
    /// An unknown command.
    UnknownCommand(String),
}

/// The mathematical value of a `ColorError`.
pub enum ColorErrorV {
    MissingValue(Seq<char>),
    UnknownCterm(Seq<char>),
    UnknownCommand(Seq<char>),
}

impl View for ColorError {
    type V = ColorErrorV;

    open spec fn view(&self) -> ColorErrorV {
        match self {
            ColorError::MissingValue(s) => ColorErrorV::MissingValue(s@),
            ColorError::UnknownCterm(s) => ColorErrorV::UnknownCterm(s@),
            ColorError::UnknownCommand(s) => ColorErrorV::UnknownCommand(s@),
        }
    }
}

/// The escape code of one font attribute, if it is known.
pub open spec fn cterm_code(tok: Seq<char>) -> Option<Seq<char>> {
    if tok == "bold"@ {
        Some("1"@)
    } else if tok == "italic"@ {
        Some("3"@)
    } else if tok == "underline"@ {
        Some("4"@)
    } else {
        None
    }
}

/// The escape codes of the font attributes `toks[i..]`, or the first
/// unknown attribute.
pub open spec fn cterm_codes_from(toks: Seq<Seq<char>>, i: int) -> Result<
    Seq<Seq<char>>,
    ColorErrorV,
>
    decreases toks.len() - i
        when i >= 0
{
    if i >= toks.len() {
        Ok(Seq::<Seq<char>>::empty())
    } else {
        match cterm_code(toks[i]) {
            None => Err(ColorErrorV::UnknownCterm(toks[i])),
            Some(c) => match cterm_codes_from(toks, i + 1) {
                Ok(rest) => Ok(seq![c] + rest),
                Err(e) => Err(e),
            },
        }
    }
}

/// The escape codes one `command=value` pair contributes, or its error.
pub open spec fn codes_of_command(cmd: Seq<char>) -> Result<Seq<Seq<char>>, ColorErrorV> {
    let parts = split_spec(cmd, '=');
    if parts.len() < 2 {
        Err(ColorErrorV::MissingValue(cmd))
    } else if parts[0] == "ctermfg"@ {
        Ok(seq!["38"@, "5"@, parts[1]])
    } else if parts[0] == "cterm"@ {
        match cterm_codes_from(split_spec(parts[1], ','), 0) {
            Ok(cs) => Ok(seq![join_spec(cs, ";"@)]),
            Err(e) => Err(e),
        }
    } else if parts[0] == "guifg"@ {
        Ok(Seq::<Seq<char>>::empty())
    } else {
        Err(ColorErrorV::UnknownCommand(parts[0]))
    }
}

/// The escape codes of the commands `cmds[i..]`, in order, or the first
/// command's error.
pub open spec fn codes_of_color_from(cmds: Seq<Seq<char>>, i: int) -> Result<
    Seq<Seq<char>>,
    ColorErrorV,
>
    decreases cmds.len() - i
        when i >= 0
{
    if i >= cmds.len() {
        Ok(Seq::<Seq<char>>::empty())
    } else {
        match codes_of_command(cmds[i]) {
            Err(e) => Err(e),
            Ok(cs) => match codes_of_color_from(cmds, i + 1) {
                Ok(rest) => Ok(cs + rest),
                Err(e) => Err(e),
            },
        }
    }
}

/// The escape sequence of one whole style directive, or its first error.
pub open spec fn ansi_of_color(color: Seq<char>) -> Result<Seq<char>, ColorErrorV> {
    match codes_of_color_from(split_spec(color, ' '), 0) {
        Ok(codes) => Ok("\u{1b}["@ + join_spec(codes, ";"@) + "m"@),
        Err(e) => Err(e),
    }
}

/// The escape table of the style entries `colors[i..]`, in order, or
/// the first entry's error.
pub open spec fn ansi_table_from(colors: Seq<(Seq<char>, Seq<char>)>, i: int) -> Result<
    Seq<(Seq<char>, Seq<char>)>,
    ColorErrorV,
>
    decreases colors.len() - i
        when i >= 0
{
    if i >= colors.len() {
        Ok(Seq::<(Seq<char>, Seq<char>)>::empty())
    } else {
        match ansi_of_color(colors[i].1) {
            Err(e) => Err(e),
            Ok(esc) => match ansi_table_from(colors, i + 1) {
                Ok(rest) => Ok(seq![(colors[i].0, esc)] + rest),
                Err(e) => Err(e),
            },
        }
    }
}

/// The escape codes of one `cterm` value, or its first unknown
/// attribute.
fn cterm_codes(value: &str) -> (r: Result<Vec<String>, ColorError>)
    ensures
        match r {
            Ok(cs) => cterm_codes_from(split_spec(value@, ','), 0) == Ok::<_, ColorErrorV>(
                cs.deep_view(),
            ),
            Err(e) => cterm_codes_from(split_spec(value@, ','), 0) == Err::<Seq<Seq<char>>, _>(
                e@,
            ),
        },
{
    let toks = split_on(value, ',');
    let ghost tv = split_spec(value@, ',');
    let mut out: Vec<String> = Vec::new();
    let mut i: usize = 0;
    proof {
        assert(out.deep_view() =~= Seq::<Seq<char>>::empty());
    }
    while i < toks.len()
        invariant
            tv == split_spec(value@, ','),
            toks.deep_view() == tv,
            toks@.len() == tv.len(),
            i <= tv.len(),
            cterm_codes_from(tv, i as int) is Ok ==> cterm_codes_from(tv, 0) == Ok::<
                _,
                ColorErrorV,
            >(out.deep_view() + cterm_codes_from(tv, i as int)->Ok_0),
            cterm_codes_from(tv, i as int) is Err ==> cterm_codes_from(tv, 0)
                == cterm_codes_from(tv, i as int),
        decreases tv.len() - i,
    {
        let ghost dv0 = out.deep_view();
        let tok = &toks[i];
        proof {
            assert(tok@ == tv[i as int]);
        }
        if str_eq(tok.as_str(), "bold") {
            out.push("1".to_owned());
        } else if str_eq(tok.as_str(), "italic") {
            out.push("3".to_owned());
        } else if str_eq(tok.as_str(), "underline") {
            out.push("4".to_owned());
        } else {
            proof {
                assert(cterm_code(tv[i as int]) is None);
                assert(cterm_codes_from(tv, i as int) == Err::<Seq<Seq<char>>, ColorErrorV>(
                    ColorErrorV::UnknownCterm(tv[i as int]),
                ));
            }
            return Err(ColorError::UnknownCterm(tok.clone()));
        }
        i += 1;
        proof {
            let c = cterm_code(tv[i - 1])->Some_0;
            assert(out.deep_view() =~= dv0.push(c));
            if cterm_codes_from(tv, i as int) is Ok {
                let rest = cterm_codes_from(tv, i as int)->Ok_0;
                assert(cterm_codes_from(tv, i - 1) == Ok::<_, ColorErrorV>(seq![c] + rest));
                assert(dv0 + (seq![c] + rest) =~= (dv0.push(c)) + rest);
            } else {
                assert(cterm_codes_from(tv, i - 1) == cterm_codes_from(tv, i as int));
            }
        }
    }
    proof {
        assert(cterm_codes_from(tv, tv.len() as int) == Ok::<_, ColorErrorV>(Seq::<
            Seq<char>,
        >::empty()));
        assert(out.deep_view() + Seq::<Seq<char>>::empty() =~= out.deep_view());
    }
    Ok(out)
}

/// The escape codes of one `command=value` pair, or its error.
fn command_codes(cmd: &String) -> (r: Result<Vec<String>, ColorError>)
    ensures
        match r {
            Ok(cs) => codes_of_command(cmd@) == Ok::<_, ColorErrorV>(cs.deep_view()),
            Err(e) => codes_of_command(cmd@) == Err::<Seq<Seq<char>>, _>(e@),
        },
{
    let parts = split_on(cmd.as_str(), '=');
    let ghost pv = split_spec(cmd@, '=');
    if parts.len() < 2 {
        return Err(ColorError::MissingValue(cmd.clone()));
    }
    let head = &parts[0];
    proof {
        assert(head@ == pv[0]);
        assert(parts@[1]@ == pv[1]);
    }
    if str_eq(head.as_str(), "ctermfg") {
        let mut out: Vec<String> = Vec::new();
        out.push("38".to_owned());
        out.push("5".to_owned());
        out.push(parts[1].clone());
        proof {
            assert(out.deep_view() =~= seq!["38"@, "5"@, pv[1]]);
        }
        Ok(out)
    } else if str_eq(head.as_str(), "cterm") {
        match cterm_codes(parts[1].as_str()) {
            Ok(cs) => {
                let joined = join_with(&cs, ";");
                let mut out: Vec<String> = Vec::new();
                out.push(joined);
                proof {
                    assert(out.deep_view() =~= seq![join_spec(cs.deep_view(), ";"@)]);
                }
                Ok(out)
            },
            Err(e) => Err(e),
        }
    } else if str_eq(head.as_str(), "guifg") {
        let out: Vec<String> = Vec::new();
        proof {
            assert(out.deep_view() =~= Seq::<Seq<char>>::empty());
        }
        Ok(out)
    } else {
        Err(ColorError::UnknownCommand(head.clone()))
    }
}

/// The escape sequence of one whole style directive, or its first
/// error.
fn ansi_of(color: &String) -> (r: Result<String, ColorError>)
    ensures
        match r {
            Ok(esc) => ansi_of_color(color@) == Ok::<_, ColorErrorV>(esc@),
            Err(e) => ansi_of_color(color@) == Err::<Seq<char>, _>(e@),
        },
{
    let cmds = split_on(color.as_str(), ' ');
    let ghost cv = split_spec(color@, ' ');
    let mut codes: Vec<String> = Vec::new();
    let mut i: usize = 0;
    proof {
        assert(codes.deep_view() =~= Seq::<Seq<char>>::empty());
    }
    while i < cmds.len()
        invariant
            cv == split_spec(color@, ' '),
            cmds.deep_view() == cv,
            cmds@.len() == cv.len(),
            i <= cv.len(),
            codes_of_color_from(cv, i as int) is Ok ==> codes_of_color_from(cv, 0) == Ok::<
                _,
                ColorErrorV,
            >(codes.deep_view() + codes_of_color_from(cv, i as int)->Ok_0),
            codes_of_color_from(cv, i as int) is Err ==> codes_of_color_from(cv, 0)
                == codes_of_color_from(cv, i as int),
        decreases cv.len() - i,
    {
        let ghost dv0 = codes.deep_view();
        let cmd = &cmds[i];
        proof {
            assert(cmd@ == cv[i as int]);
        }
        match command_codes(cmd) {
            Ok(mut cs) => {
                let ghost csv = cs.deep_view();
                codes.append(&mut cs);
                proof {
                    assert(codes.deep_view() =~= dv0 + csv);
                }
            },
            Err(e) => {
                proof {
                    assert(codes_of_color_from(cv, i as int) == Err::<Seq<Seq<char>>, _>(e@));
                }
                return Err(e);
            },
        }
        i += 1;
        proof {
            let cs = codes_of_command(cv[i - 1])->Ok_0;
            if codes_of_color_from(cv, i as int) is Ok {
                let rest = codes_of_color_from(cv, i as int)->Ok_0;
                assert(codes_of_color_from(cv, i - 1) == Ok::<_, ColorErrorV>(cs + rest));
                assert(dv0 + (cs + rest) =~= (dv0 + cs) + rest);
            } else {
                assert(codes_of_color_from(cv, i - 1) == codes_of_color_from(cv, i as int));
            }
        }
    }
    proof {
        assert(codes_of_color_from(cv, cv.len() as int) == Ok::<_, ColorErrorV>(Seq::<
            Seq<char>,
        >::empty()));
        assert(codes.deep_view() + Seq::<Seq<char>>::empty() =~= codes.deep_view());
    }
    let joined = join_with(&codes, ";");
    let mut esc = "\u{1b}[".to_owned();
    esc.append(joined.as_str());
    esc.append("m");
    proof {
        assert(esc@ == "\u{1b}["@ + join_spec(codes.deep_view(), ";"@) + "m"@);
    }
    Ok(esc)
}

impl SyntaxMatcher {
    /// The style table converted to terminal escape sequences: each
    /// entry's directive is parsed and turned into one escape sequence,
    /// and the first ill-formed directive is reported instead.
    pub fn get_colors_as_ansi(&self) -> (r: Result<Vec<(String, String)>, ColorError>)
        ensures
            match r {
                Ok(table) => ansi_table_from(self@.colors, 0) == Ok::<_, ColorErrorV>(
                    table@.map_values(|c: (String, String)| (c.0@, c.1@)),
                ),
                Err(e) => ansi_table_from(self@.colors, 0) == Err::<
                    Seq<(Seq<char>, Seq<char>)>,
                    _,
                >(e@),
            },
    {
        let colors = self.get_colors();
        let ghost colv = self@.colors;
        let mut out: Vec<(String, String)> = Vec::new();
        let mut i: usize = 0;
        proof {
            assert(out@.map_values(|c: (String, String)| (c.0@, c.1@)) =~= Seq::<
                (Seq<char>, Seq<char>),
            >::empty());
        }
        while i < colors.len()
            invariant
                colv == self@.colors,
                colors@.map_values(|c: (String, String)| (c.0@, c.1@)) == colv,
                colors@.len() == colv.len(),
                i <= colv.len(),
                ansi_table_from(colv, i as int) is Ok ==> ansi_table_from(colv, 0) == Ok::<
                    _,
                    ColorErrorV,
                >(out@.map_values(|c: (String, String)| (c.0@, c.1@)) + ansi_table_from(
                    colv,
                    i as int,
                )->Ok_0),
                ansi_table_from(colv, i as int) is Err ==> ansi_table_from(colv, 0)
                    == ansi_table_from(colv, i as int),
            decreases colv.len() - i,
        {
            let ghost dv0 = out@.map_values(|c: (String, String)| (c.0@, c.1@));
            let entry = &colors[i];
            proof {
                assert((entry.0@, entry.1@) == colv[i as int]);
            }
            match ansi_of(&entry.1) {
                Ok(esc) => {
                    out.push((entry.0.clone(), esc));
                    proof {
                        assert(out@.map_values(|c: (String, String)| (c.0@, c.1@)) =~= dv0.push(
                            (colv[i as int].0, ansi_of_color(colv[i as int].1)->Ok_0),
                        ));
                    }
                },
                Err(e) => {
                    proof {
                        assert(ansi_table_from(colv, i as int) == Err::<
                            Seq<(Seq<char>, Seq<char>)>,
                            _,
                        >(e@));
                    }
                    return Err(e);
                },
            }
            i += 1;
            proof {
                let esc = ansi_of_color(colv[i - 1].1)->Ok_0;
                if ansi_table_from(colv, i as int) is Ok {
                    let rest = ansi_table_from(colv, i as int)->Ok_0;
                    assert(ansi_table_from(colv, i - 1) == Ok::<_, ColorErrorV>(
                        seq![(colv[i - 1].0, esc)] + rest,
                    ));
                    assert(dv0 + (seq![(colv[i - 1].0, esc)] + rest) =~= (dv0.push(
                        (colv[i - 1].0, esc),
                    )) + rest);
                } else {
                    assert(ansi_table_from(colv, i - 1) == ansi_table_from(colv, i as int));
                }
            }
        }
        proof {
            assert(ansi_table_from(colv, colv.len() as int) == Ok::<_, ColorErrorV>(Seq::<
                (Seq<char>, Seq<char>),
            >::empty()));
            assert(out@.map_values(|c: (String, String)| (c.0@, c.1@)) + Seq::<
                (Seq<char>, Seq<char>),
            >::empty() =~= out@.map_values(|c: (String, String)| (c.0@, c.1@)));
        }
        Ok(out)
    }
}

} // verus!
