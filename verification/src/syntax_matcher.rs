//! The rule engine: compiles a rule set into breadcrumb matchers, fans
//! traversal events out to all of them, collects raw character-range
//! spans, and resolves them — deduplication, conditional-group
//! resolution, and splitting of multi-line spans — into final per-line
//! highlight spans.

use vstd::prelude::*;

use itertools::Itertools;

use crate::matcher::enter_step;
use crate::matcher::full_match;
use crate::matcher::initial_state;
use crate::matcher::leave_step;
use crate::matcher::wf_state;
use crate::matcher::BreadcrumbsMatcher;
use crate::matcher::MatchPattern;
use crate::matcher::MatcherState;
use crate::matcher::Term;
use crate::strutil::lemma_split_starts;
use crate::strutil::lemma_split_content;
use crate::strutil::piece_start;
use crate::strutil::split_on;
use crate::strutil::split_spec;
use crate::strutil::str_eq;

verus! {

/// When a raw span counts toward the final output: always, only if the
/// same text was also matched by another group, or with a fallback group
/// when it was not.
#[derive(Clone, Debug, PartialEq, Eq, Hash)]
pub enum SyntaxItemType {
    Always,
    /// The group to check, to see whether the text this span matched is
    /// also matched there.
    IfDefined(String),
    IfDefinedElse(String, String),
}

/// The mathematical value of a `SyntaxItemType`.
pub enum Conditionality {
    Always,
    IfDefined(Seq<char>),
    IfDefinedElse(Seq<char>, Seq<char>),
}

impl View for SyntaxItemType {
    type V = Conditionality;

    open spec fn view(&self) -> Conditionality {
        match self {
            SyntaxItemType::Always => Conditionality::Always,
            SyntaxItemType::IfDefined(g) => Conditionality::IfDefined(g@),
            SyntaxItemType::IfDefinedElse(g, e) => Conditionality::IfDefinedElse(g@, e@),
        }
    }
}

impl DeepView for SyntaxItemType {
    type V = Conditionality;

    open spec fn deep_view(&self) -> Conditionality {
        self.view()
    }
}

/// A raw span: a character range of the source text, treating the whole
/// text as one line, tagged with the group that matched it.
#[derive(Clone, Debug, PartialEq, Eq, Hash)]
pub struct SyntaxItem {
    pub group: String,
    pub col_start: usize,
    pub col_end: usize,
    pub syntax_type: SyntaxItemType,
}

/// The mathematical value of a `SyntaxItem`.
#[verifier::ext_equal]
pub struct SyntaxItemV {
    pub group: Seq<char>,
    pub col_start: int,
    pub col_end: int,
    pub syntax_type: Conditionality,
}

impl View for SyntaxItem {
    type V = SyntaxItemV;

    open spec fn view(&self) -> SyntaxItemV {
        SyntaxItemV {
            group: self.group@,
            col_start: self.col_start as int,
            col_end: self.col_end as int,
            syntax_type: self.syntax_type@,
        }
    }
}

impl DeepView for SyntaxItem {
    type V = SyntaxItemV;

    open spec fn deep_view(&self) -> SyntaxItemV {
        self.view()
    }
}

/// A resolved span: one line of the source text (1-based), a column
/// range within it (0-based), and the text it covers.
#[derive(Clone, Debug, PartialEq, Eq)]
pub struct MatchedSyntaxItem {
    pub group: String,
    pub line: usize,
    pub col_start: usize,
    pub col_end: usize,
    pub matched: String,
}

/// The mathematical value of a `MatchedSyntaxItem`.
#[verifier::ext_equal]
pub struct MatchedSyntaxItemV {
    pub group: Seq<char>,
    pub line: int,
    pub col_start: int,
    pub col_end: int,
    pub matched: Seq<char>,
}

impl View for MatchedSyntaxItem {
    type V = MatchedSyntaxItemV;

    open spec fn view(&self) -> MatchedSyntaxItemV {
        MatchedSyntaxItemV {
            group: self.group@,
            line: self.line as int,
            col_start: self.col_start as int,
            col_end: self.col_end as int,
            matched: self.matched@,
        }
    }
}

impl DeepView for MatchedSyntaxItem {
    type V = MatchedSyntaxItemV;

    open spec fn deep_view(&self) -> MatchedSyntaxItemV {
        self.view()
    }
}

/// Line `l`'s share of the character span `[start, end)`: the overlap of
/// the span with the line's characters, as a (line, column start, column
/// end) triple, or nothing when they do not overlap.
pub open spec fn line_segment(lines: Seq<Seq<char>>, l: int, start: int, end: int) -> Seq<
    (int, int, int),
> {
    let ls = piece_start(lines, l);
    let a = if start > ls {
        start
    } else {
        ls
    };
    let b = if end < ls + lines[l].len() {
        end
    } else {
        ls + lines[l].len()
    };
    if a < b {
        seq![(l, a - ls, b - ls)]
    } else {
        Seq::<(int, int, int)>::empty()
    }
}

/// The shares of lines `l` onward in the character span `[start, end)`.
pub open spec fn segments_from(lines: Seq<Seq<char>>, l: int, start: int, end: int) -> Seq<
    (int, int, int),
>
    decreases lines.len() - l
        when l >= 0
{
    if l >= lines.len() {
        Seq::<(int, int, int)>::empty()
    } else {
        line_segment(lines, l, start, end) + segments_from(lines, l + 1, start, end)
    }
}

/// The per-line pieces of the character span `[start, end)` of `code`:
/// for every line the span overlaps, in order, the 0-based line index
/// and the column range covered there.  Line separators lie between
/// lines and belong to no piece.
pub open spec fn span_segments(code: Seq<char>, start: int, end: int) -> Seq<(int, int, int)> {
    segments_from(split_spec(code, '\n'), 0, start, end)
}

/// Every segment names a line of `lines` at or after `l` and a nonempty
/// column range within that line.
pub proof fn lemma_segments_bounds(lines: Seq<Seq<char>>, l: int, start: int, end: int)
    requires
        0 <= l,
    ensures
        forall|k: int|
            0 <= k < segments_from(lines, l, start, end).len() ==> {
                let seg = #[trigger] segments_from(lines, l, start, end)[k];
                &&& l <= seg.0 < lines.len()
                &&& 0 <= seg.1 < seg.2 <= lines[seg.0].len()
            },
    decreases lines.len() - l,
{
    if l < lines.len() {
        lemma_segments_bounds(lines, l + 1, start, end);
        let head = line_segment(lines, l, start, end);
        let rest = segments_from(lines, l + 1, start, end);
        let whole = segments_from(lines, l, start, end);
        assert forall|k: int| 0 <= k < whole.len() implies {
            let seg = #[trigger] whole[k];
            &&& l <= seg.0 < lines.len()
            &&& 0 <= seg.1 < seg.2 <= lines[seg.0].len()
        } by {
            assert(whole == head + rest);
            if k < head.len() {
                assert(head.len() == 1);
                assert(whole[k] == head[0]);
            } else {
                assert(whole[k] == rest[k - head.len()]);
            }
        }
    }
}

/// The resolved spans of one raw span with group `group`: its share of
/// every line it overlaps, with the text covered there.  Lines are
/// reported 1-based.
pub open spec fn resolved_of_span(
    group: Seq<char>,
    start: int,
    end: int,
    code: Seq<char>,
) -> Seq<MatchedSyntaxItemV> {
    span_segments(code, start, end).map_values(
        |seg: (int, int, int)|
            MatchedSyntaxItemV {
                group: group,
                line: seg.0 + 1,
                col_start: seg.1,
                col_end: seg.2,
                matched: split_spec(code, '\n')[seg.0].subrange(seg.1, seg.2),
            },
    )
}

impl MatchedSyntaxItem {
    /// The per-line column ranges of the character span
    /// `[start_col, end_col]` (both ends inclusive) of `code`: for every
    /// line the span overlaps, the 0-based line index and the columns
    /// covered there.
    pub fn range_to_lines_cols(start_col: usize, end_col: usize, code: &str) -> (r: Vec<
        (usize, usize, usize),
    >)
        requires
            end_col < usize::MAX,
            code@.len() < usize::MAX,
        ensures
            r@.map_values(|t: (usize, usize, usize)| (t.0 as int, t.1 as int, t.2 as int))
                == span_segments(code@, start_col as int, end_col + 1),
    {
        let lines = split_on(code, '\n');
        let ghost lv = split_spec(code@, '\n');
        proof {
            lemma_split_starts(code@, '\n');
        }
        let end: usize = end_col + 1;
        let mut out: Vec<(usize, usize, usize)> = Vec::new();
        let mut l: usize = 0;
        let mut char_count: usize = 0;
        proof {
            assert(out@.map_values(|t: (usize, usize, usize)| (t.0 as int, t.1 as int, t.2 as int))
                + segments_from(lv, 0, start_col as int, end as int) =~= segments_from(
                lv,
                0,
                start_col as int,
                end as int,
            ));
        }
        while l < lines.len()
            invariant
                lines.deep_view() == lv,
                lv == split_spec(code@, '\n'),
                code@.len() < usize::MAX,
                end == end_col + 1,
                l <= lines.len(),
                lines@.len() == lv.len(),
                char_count as int == piece_start(lv, l as int),
                out@.map_values(|t: (usize, usize, usize)| (t.0 as int, t.1 as int, t.2 as int))
                    + segments_from(lv, l as int, start_col as int, end as int) == segments_from(
                    lv,
                    0,
                    start_col as int,
                    end as int,
                ),
            decreases lines@.len() - l,
        {
            let ghost mapped0 = out@.map_values(
                |t: (usize, usize, usize)| (t.0 as int, t.1 as int, t.2 as int),
            );
            proof {
                lemma_split_starts(code@, '\n');
                assert(lines@[l as int].deep_view() == lv[l as int]);
            }
            let ll = lines[l].as_str().unicode_len();
            proof {
                assert(ll == lv[l as int].len());
                assert(piece_start(lv, l as int) + lv[l as int].len() < code@.len() + 1);
            }
            let line_end = char_count + ll;
            let a = if start_col > char_count {
                start_col
            } else {
                char_count
            };
            let b = if end < line_end {
                end
            } else {
                line_end
            };
            if a < b {
                out.push((l, a - char_count, b - char_count));
                proof {
                    assert(out@.map_values(
                        |t: (usize, usize, usize)| (t.0 as int, t.1 as int, t.2 as int),
                    ) =~= mapped0.push((l as int, a - char_count, b - char_count)));
                    assert(line_segment(lv, l as int, start_col as int, end as int) =~= seq![
                        (l as int, a - char_count, b - char_count),
                    ]);
                }
            } else {
                proof {
                    assert(line_segment(lv, l as int, start_col as int, end as int) =~= Seq::<
                        (int, int, int),
                    >::empty());
                }
            }
            proof {
                assert(segments_from(lv, l as int, start_col as int, end as int) == line_segment(
                    lv,
                    l as int,
                    start_col as int,
                    end as int,
                ) + segments_from(lv, l + 1, start_col as int, end as int));
                assert(out@.map_values(
                    |t: (usize, usize, usize)| (t.0 as int, t.1 as int, t.2 as int),
                ) + segments_from(lv, l + 1, start_col as int, end as int) =~= mapped0
                    + segments_from(lv, l as int, start_col as int, end as int));
                assert(piece_start(lv, l + 1) == piece_start(lv, l as int) + lv[l as int].len()
                    + 1);
            }
            char_count = line_end + 1;
            l += 1;
        }
        proof {
            assert(segments_from(lv, l as int, start_col as int, end as int) =~= Seq::<
                (int, int, int),
            >::empty());
            assert(out@.map_values(|t: (usize, usize, usize)| (t.0 as int, t.1 as int, t.2 as int))
                =~= segments_from(lv, 0, start_col as int, end as int));
        }
        out
    }

    /// Splits one raw span into its per-line resolved spans, each
    /// carrying the raw span's group and the text covered on its line.
    pub fn from_unmatched(item: SyntaxItem, code: &str) -> (r: Vec<MatchedSyntaxItem>)
        requires
            item.col_start < item.col_end,
            code@.len() < usize::MAX,
        ensures
            r.deep_view() == resolved_of_span(
                item@.group,
                item@.col_start,
                item@.col_end,
                code@,
            ),
    {
        let ghost lv = split_spec(code@, '\n');
        let ghost start = item@.col_start;
        let ghost end = item@.col_end;
        let ghost resolved = resolved_of_span(item@.group, start, end, code@);
        let segs = Self::range_to_lines_cols(item.col_start, item.col_end - 1, code);
        let ghost segsv = span_segments(code@, start, end);
        proof {
            lemma_segments_bounds(lv, 0, start, end);
            lemma_split_starts(code@, '\n');
        }
        let lines = split_on(code, '\n');
        let nlines = lines.len();
        let mut out: Vec<MatchedSyntaxItem> = Vec::new();
        let mut k: usize = 0;
        proof {
            assert(out.deep_view() =~= resolved.take(0));
        }
        while k < segs.len()
            invariant
                lines.deep_view() == lv,
                lv == split_spec(code@, '\n'),
                lines@.len() == lv.len(),
                nlines == lv.len(),
                segs@.map_values(|t: (usize, usize, usize)| (t.0 as int, t.1 as int, t.2 as int))
                    == segsv,
                segsv == span_segments(code@, start, end),
                resolved == resolved_of_span(item@.group, start, end, code@),
                forall|j: int|
                    0 <= j < segsv.len() ==> {
                        let seg = #[trigger] segsv[j];
                        &&& 0 <= seg.0 < lv.len()
                        &&& 0 <= seg.1 < seg.2 <= lv[seg.0].len()
                    },
                k <= segs@.len(),
                segs@.len() == segsv.len(),
                code@.len() < usize::MAX,
                out.deep_view() == resolved.take(k as int),
            decreases segs@.len() - k,
        {
            let ghost dv0 = out.deep_view();
            let seg = segs[k];
            let l = seg.0;
            let cs = seg.1;
            let ce = seg.2;
            proof {
                lemma_split_starts(code@, '\n');
                assert(segsv[k as int] == (l as int, cs as int, ce as int));
                assert(l < nlines);
                assert(lines@[l as int].deep_view() == lv[l as int]);
            }
            let matched = lines[l].as_str().substring_char(cs, ce).to_owned();
            let group = item.group.clone();
            out.push(
                MatchedSyntaxItem { group, line: l + 1, col_start: cs, col_end: ce, matched },
            );
            k += 1;
            proof {
                assert(out.deep_view() =~= dv0.push(
                    MatchedSyntaxItemV {
                        group: item@.group,
                        line: l + 1,
                        col_start: cs as int,
                        col_end: ce as int,
                        matched: lv[l as int].subrange(cs as int, ce as int),
                    },
                ));
                assert(resolved[k - 1] == MatchedSyntaxItemV {
                    group: item@.group,
                    line: l + 1,
                    col_start: cs as int,
                    col_end: ce as int,
                    matched: lv[l as int].subrange(cs as int, ce as int),
                });
                assert(resolved.take(k as int) =~= resolved.take(k - 1).push(resolved[k - 1]));
            }
        }
        proof {
            assert(resolved.take(resolved.len() as int) =~= resolved);
        }
        out
    }
}

/// One rule of the configuration, as plain values: a named group with
/// its alternative pattern strings and its optional conditional
/// references.  A pattern string is whitespace-separated tokens, each a
/// node label, excluded when prefixed with `^`.
#[derive(Debug)]
pub struct GroupConfig {
    pub name: String,
    pub patterns: Vec<String>,
    pub if_defined: Option<String>,
    pub or_else: Option<String>,
}

/// The mathematical value of a `GroupConfig`.
#[verifier::ext_equal]
pub struct GroupConfigV {
    pub name: Seq<char>,
    pub patterns: Seq<Seq<char>>,
    pub if_defined: Option<Seq<char>>,
    pub or_else: Option<Seq<char>>,
}

impl View for GroupConfig {
    type V = GroupConfigV;

    open spec fn view(&self) -> GroupConfigV {
        GroupConfigV {
            name: self.name@,
            patterns: self.patterns.deep_view(),
            if_defined: match self.if_defined {
                Some(ref s) => Some(s@),
                None => None,
            },
            or_else: match self.or_else {
                Some(ref s) => Some(s@),
                None => None,
            },
        }
    }
}

impl DeepView for GroupConfig {
    type V = GroupConfigV;

    open spec fn deep_view(&self) -> GroupConfigV {
        self.view()
    }
}

/// A configuration error, found while compiling a rule set and reported
/// before any traversal begins.
#[derive(Debug, PartialEq, Eq)]
pub enum ConfigError {
    /// The named group has an empty list of alternative patterns.
    EmptyPatternList(String),
    /// A pattern of the named group holds an empty term.
    EmptyTerm(String),
    /// The named group, referenced by a conditional rule, is defined
    /// nowhere in the rule set.
    UndefinedGroup(String),
}

/// The mathematical value of a `ConfigError`.
pub enum ConfigErrorV {
    EmptyPatternList(Seq<char>),
    EmptyTerm(Seq<char>),
    UndefinedGroup(Seq<char>),
}

impl View for ConfigError {
    type V = ConfigErrorV;

    open spec fn view(&self) -> ConfigErrorV {
        match self {
            ConfigError::EmptyPatternList(g) => ConfigErrorV::EmptyPatternList(g@),
            ConfigError::EmptyTerm(g) => ConfigErrorV::EmptyTerm(g@),
            ConfigError::UndefinedGroup(g) => ConfigErrorV::UndefinedGroup(g@),
        }
    }
}

/// The term denoted by one whitespace-separated token: a leading `^`
/// marks the label as excluded, any other token is a required label.
pub open spec fn term_of_token(tok: Seq<char>) -> Term {
    if tok.len() > 0 && tok[0] == '^' {
        Term::Exc(tok.skip(1))
    } else {
        Term::Req(tok)
    }
}

/// The terms of one pattern string: one per whitespace-separated token.
pub open spec fn terms_of_pattern(s: Seq<char>) -> Seq<Term> {
    split_spec(s, ' ').map_values(|tok: Seq<char>| term_of_token(tok))
}

/// A pattern string is valid when none of its tokens is empty.
pub open spec fn pattern_tokens_valid(s: Seq<char>) -> bool {
    forall|i: int|
        0 <= i < split_spec(s, ' ').len() ==> (#[trigger] split_spec(s, ' ')[i]).len() > 0
}

/// A group is locally valid when it has at least one pattern and every
/// pattern is valid.
pub open spec fn group_local_valid(g: GroupConfigV) -> bool {
    &&& g.patterns.len() > 0
    &&& forall|i: int| 0 <= i < g.patterns.len() ==> pattern_tokens_valid(#[trigger] g.patterns[i])
}

/// True iff some group of the set bears this name.
pub open spec fn name_defined_spec(groups: Seq<GroupConfigV>, name: Seq<char>) -> bool {
    exists|j: int| 0 <= j < groups.len() && (#[trigger] groups[j]).name == name
}

/// A group's conditional references are valid when each names a group
/// defined somewhere in the set.  A fallback is only read when the
/// condition is present.
pub open spec fn group_refs_valid(groups: Seq<GroupConfigV>, g: GroupConfigV) -> bool {
    match g.if_defined {
        Some(p) => name_defined_spec(groups, p) && match g.or_else {
            Some(o) => name_defined_spec(groups, o),
            None => true,
        },
        None => true,
    }
}

/// A configuration is valid when every group is locally valid and every
/// conditional reference resolves.
pub open spec fn config_valid(groups: Seq<GroupConfigV>) -> bool {
    forall|i: int|
        0 <= i < groups.len() ==> group_local_valid(#[trigger] groups[i]) && group_refs_valid(
            groups,
            groups[i],
        )
}

/// The local error of one group, if any: an empty pattern list, else the
/// first empty term.
pub open spec fn group_local_error(g: GroupConfigV) -> Option<ConfigErrorV> {
    if g.patterns.len() == 0 {
        Some(ConfigErrorV::EmptyPatternList(g.name))
    } else if exists|i: int|
        0 <= i < g.patterns.len() && !pattern_tokens_valid(#[trigger] g.patterns[i]) {
        Some(ConfigErrorV::EmptyTerm(g.name))
    } else {
        None
    }
}

/// The reference error of one group, if any: the first conditional
/// reference that resolves to no defined group.
pub open spec fn group_ref_error(groups: Seq<GroupConfigV>, g: GroupConfigV) -> Option<
    ConfigErrorV,
> {
    match g.if_defined {
        Some(p) => if !name_defined_spec(groups, p) {
            Some(ConfigErrorV::UndefinedGroup(p))
        } else {
            match g.or_else {
                Some(o) => if !name_defined_spec(groups, o) {
                    Some(ConfigErrorV::UndefinedGroup(o))
                } else {
                    None
                },
                None => None,
            }
        },
        None => None,
    }
}

/// The first local error among the groups `i` onward.
pub open spec fn first_local_error(groups: Seq<GroupConfigV>, i: int) -> Option<ConfigErrorV>
    decreases groups.len() - i
        when i >= 0
{
    if i >= groups.len() {
        None
    } else {
        match group_local_error(groups[i]) {
            Some(e) => Some(e),
            None => first_local_error(groups, i + 1),
        }
    }
}

/// The first reference error among the groups `i` onward.
pub open spec fn first_ref_error(groups: Seq<GroupConfigV>, i: int) -> Option<ConfigErrorV>
    decreases groups.len() - i
        when i >= 0
{
    if i >= groups.len() {
        None
    } else {
        match group_ref_error(groups, groups[i]) {
            Some(e) => Some(e),
            None => first_ref_error(groups, i + 1),
        }
    }
}

/// The error a configuration compiles to, if any: all local errors are
/// reported before any reference error, each set in group order.
pub open spec fn config_error(groups: Seq<GroupConfigV>) -> Option<ConfigErrorV> {
    match first_local_error(groups, 0) {
        Some(e) => Some(e),
        None => first_ref_error(groups, 0),
    }
}

/// The conditionality a group compiles to.
pub open spec fn cond_of_group(g: GroupConfigV) -> Conditionality {
    match g.if_defined {
        Some(p) => match g.or_else {
            Some(o) => Conditionality::IfDefinedElse(p, o),
            None => Conditionality::IfDefined(p),
        },
        None => Conditionality::Always,
    }
}

/// The matchers one group compiles to: one fresh matcher per
/// alternative pattern, in order.
pub open spec fn group_compiled(g: GroupConfigV) -> Seq<GroupMatcherV> {
    g.patterns.map_values(
        |p: Seq<char>|
            GroupMatcherV {
                state: initial_state(terms_of_pattern(p)),
                group: g.name,
                syntax_type: cond_of_group(g),
            },
    )
}

/// The matchers the first `k` groups compile to, in group order.
pub open spec fn compiled_prefix(groups: Seq<GroupConfigV>, k: int) -> Seq<GroupMatcherV>
    decreases k when k >= 0
{
    if k <= 0 {
        Seq::<GroupMatcherV>::empty()
    } else {
        compiled_prefix(groups, k - 1) + group_compiled(groups[k - 1])
    }
}

/// The matchers a whole configuration compiles to.
pub open spec fn compiled_matchers(groups: Seq<GroupConfigV>) -> Seq<GroupMatcherV> {
    compiled_prefix(groups, groups.len() as int)
}

/// One compiled alternative pattern, with the group it reports and the
/// conditionality of its spans.
struct GroupMatcher {
    bc: BreadcrumbsMatcher,
    group: String,
    syntax_type: SyntaxItemType,
}

/// The mathematical value of one compiled matcher.
#[verifier::ext_equal]
pub struct GroupMatcherV {
    pub state: MatcherState,
    pub group: Seq<char>,
    pub syntax_type: Conditionality,
}

impl View for GroupMatcher {
    type V = GroupMatcherV;

    closed spec fn view(&self) -> GroupMatcherV {
        GroupMatcherV { state: self.bc@, group: self.group@, syntax_type: self.syntax_type@ }
    }
}

/// The rule engine: all compiled matchers, the raw spans collected so
/// far, and the style table carried through for the presentation layer.
pub struct SyntaxMatcher {
    matchers: Vec<GroupMatcher>,
    syntax: Vec<SyntaxItem>,
    colors: Vec<(String, String)>,
}

/// The mathematical value of the rule engine.
#[verifier::ext_equal]
pub struct SyntaxMatcherV {
    pub matchers: Seq<GroupMatcherV>,
    pub items: Seq<SyntaxItemV>,
    pub colors: Seq<(Seq<char>, Seq<char>)>,
}

impl View for SyntaxMatcher {
    type V = SyntaxMatcherV;

    closed spec fn view(&self) -> SyntaxMatcherV {
        SyntaxMatcherV {
            matchers: self.matchers@.map_values(|m: GroupMatcher| m@),
            items: self.syntax@.map_values(|it: SyntaxItem| it@),
            colors: self.colors@.map_values(|c: (String, String)| (c.0@, c.1@)),
        }
    }
}

/// Well-formedness of the engine: every compiled matcher state is
/// well-formed.
pub open spec fn engine_wf(s: SyntaxMatcherV) -> bool {
    forall|i: int| 0 <= i < s.matchers.len() ==> wf_state((#[trigger] s.matchers[i]).state)
}

/// The raw span one matcher contributes on an enter event with this
/// locate, if any: a span is recorded only when the event carries a
/// concrete locate and the matcher reports a match at the entered node.
pub open spec fn fired_one(m: GroupMatcherV, x: Seq<char>, loc: Option<(int, int)>) -> Seq<
    SyntaxItemV,
> {
    match loc {
        Some(lc) => if full_match(enter_step(m.state, x)) {
            seq![
                SyntaxItemV {
                    group: m.group,
                    col_start: lc.0,
                    col_end: lc.0 + lc.1,
                    syntax_type: m.syntax_type,
                },
            ]
        } else {
            Seq::<SyntaxItemV>::empty()
        },
        None => Seq::<SyntaxItemV>::empty(),
    }
}

/// The raw spans the matchers `i` onward contribute on one enter event,
/// in matcher order.
pub open spec fn fired_from(
    ms: Seq<GroupMatcherV>,
    i: int,
    x: Seq<char>,
    loc: Option<(int, int)>,
) -> Seq<SyntaxItemV>
    decreases ms.len() - i
        when i >= 0
{
    if i >= ms.len() {
        Seq::<SyntaxItemV>::empty()
    } else {
        fired_one(ms[i], x, loc) + fired_from(ms, i + 1, x, loc)
    }
}

/// The locate of an enter event, as offset and length.
pub open spec fn loc_view(locate: Option<(usize, usize)>) -> Option<(int, int)> {
    match locate {
        Some(lc) => Some((lc.0 as int, lc.1 as int)),
        None => None,
    }
}


/// First-occurrence deduplication: each raw span is kept once, at its
/// first occurrence, in order.
pub open spec fn dedup_first(s: Seq<SyntaxItemV>) -> Seq<SyntaxItemV>
    decreases s.len(),
{
    if s.len() == 0 {
        Seq::<SyntaxItemV>::empty()
    } else {
        let rest = dedup_first(s.drop_last());
        if s.drop_last().contains(s.last()) {
            rest
        } else {
            rest.push(s.last())
        }
    }
}

/// Every deduplicated span is one of the raw spans.
pub proof fn lemma_dedup_first_elements(s: Seq<SyntaxItemV>)
    ensures
        forall|k: int| 0 <= k < dedup_first(s).len() ==> s.contains(#[trigger] dedup_first(s)[k]),
    decreases s.len(),
{
    if s.len() > 0 {
        lemma_dedup_first_elements(s.drop_last());
        assert forall|k: int| 0 <= k < dedup_first(s).len() implies s.contains(
            #[trigger] dedup_first(s)[k],
        ) by {
            if k < dedup_first(s.drop_last()).len() {
                let x = dedup_first(s.drop_last())[k];
                assert(s.drop_last().contains(x));
                let w = choose|w: int| 0 <= w < s.drop_last().len() && s.drop_last()[w] == x;
                assert(s[w] == x);
            } else {
                assert(dedup_first(s)[k] == s.last());
                assert(s[s.len() - 1] == s.last());
            }
        }
    }
}

/// The text a raw span covers, the whole source taken as one line.
pub open spec fn span_text(code: Seq<char>, it: SyntaxItemV) -> Seq<char> {
    code.subrange(it.col_start, it.col_end)
}

/// True iff some unconditional raw span of group `group` covers exactly
/// the text `text`.
pub open spec fn known_text(
    items: Seq<SyntaxItemV>,
    code: Seq<char>,
    group: Seq<char>,
    text: Seq<char>,
) -> bool {
    exists|i: int|
        0 <= i < items.len() && (#[trigger] items[i]).syntax_type is Always && items[i].group
            == group && span_text(code, items[i]) == text
}

/// The resolved output of the unconditional spans among `items[i..]`,
/// in order.
pub open spec fn resolved_always_from(items: Seq<SyntaxItemV>, i: int, code: Seq<char>) -> Seq<
    MatchedSyntaxItemV,
>
    decreases items.len() - i
        when i >= 0
{
    if i >= items.len() {
        Seq::<MatchedSyntaxItemV>::empty()
    } else {
        (if items[i].syntax_type is Always {
            resolved_of_span(items[i].group, items[i].col_start, items[i].col_end, code)
        } else {
            Seq::<MatchedSyntaxItemV>::empty()
        }) + resolved_always_from(items, i + 1, code)
    }
}

/// What one conditional raw span resolves to, against the unconditional
/// spans of `items`: a span requiring a group is kept only if its text is
/// known there; one with a fallback is always kept, renamed to the
/// fallback when its text is not known.
pub open spec fn resolve_conditional(
    items: Seq<SyntaxItemV>,
    it: SyntaxItemV,
    code: Seq<char>,
) -> Seq<MatchedSyntaxItemV> {
    match it.syntax_type {
        Conditionality::Always => Seq::<MatchedSyntaxItemV>::empty(),
        Conditionality::IfDefined(p) => if known_text(items, code, p, span_text(code, it)) {
            resolved_of_span(it.group, it.col_start, it.col_end, code)
        } else {
            Seq::<MatchedSyntaxItemV>::empty()
        },
        Conditionality::IfDefinedElse(p, o) => resolved_of_span(
            if known_text(items, code, p, span_text(code, it)) {
                it.group
            } else {
                o
            },
            it.col_start,
            it.col_end,
            code,
        ),
    }
}

/// The resolved output of the conditional spans among `items[i..]`, in
/// order, each resolved against the unconditional spans of all of
/// `items`.
pub open spec fn resolved_conditional_from(
    items: Seq<SyntaxItemV>,
    i: int,
    code: Seq<char>,
) -> Seq<MatchedSyntaxItemV>
    decreases items.len() - i
        when i >= 0
{
    if i >= items.len() {
        Seq::<MatchedSyntaxItemV>::empty()
    } else {
        resolve_conditional(items, items[i], code) + resolved_conditional_from(items, i + 1, code)
    }
}

/// The full resolution of a collection of raw spans: deduplicate, then
/// resolve, with all unconditional spans reported first and the
/// conditional ones after them, each in deduplicated order.
pub open spec fn resolve_spec(items: Seq<SyntaxItemV>, code: Seq<char>) -> Seq<
    MatchedSyntaxItemV,
> {
    let ds = dedup_first(items);
    resolved_always_from(ds, 0, code) + resolved_conditional_from(ds, 0, code)
}


/// Piece starts grow along the lines: a line ends strictly before any
/// later line begins.
pub proof fn lemma_piece_start_mono(lines: Seq<Seq<char>>, k: int, m: int)
    requires
        0 <= k < m,
    ensures
        piece_start(lines, k) + lines[k].len() < piece_start(lines, m),
    decreases m - k,
{
    if k + 1 < m {
        lemma_piece_start_mono(lines, k + 1, m);
    }
}

/// Lines that end at or before the span's start contribute nothing.
proof fn lemma_segments_skip_before(lines: Seq<Seq<char>>, j: int, l: int, start: int, end: int)
    requires
        0 <= j <= l <= lines.len(),
        forall|k: int|
            j <= k < l ==> piece_start(lines, k) + (#[trigger] lines[k]).len() <= start,
    ensures
        segments_from(lines, j, start, end) == segments_from(lines, l, start, end),
    decreases l - j,
{
    if j < l {
        assert(line_segment(lines, j, start, end) =~= Seq::<(int, int, int)>::empty());
        lemma_segments_skip_before(lines, j + 1, l, start, end);
        assert(segments_from(lines, j, start, end) =~= segments_from(lines, j + 1, start, end));
    }
}

/// Lines that begin at or after the span's end contribute nothing.
proof fn lemma_segments_empty_after(lines: Seq<Seq<char>>, j: int, start: int, end: int)
    requires
        0 <= j,
        forall|k: int| j <= k < lines.len() ==> end <= #[trigger] piece_start(lines, k),
    ensures
        segments_from(lines, j, start, end) == Seq::<(int, int, int)>::empty(),
    decreases lines.len() - j,
{
    if j < lines.len() {
        assert(line_segment(lines, j, start, end) =~= Seq::<(int, int, int)>::empty());
        lemma_segments_empty_after(lines, j + 1, start, end);
        assert(segments_from(lines, j, start, end) =~= segments_from(lines, j + 1, start, end));
    }
}

/// Multi-line span splitting: a span that starts inside line `l`, runs
/// through line `l + 1`, and ends inside line `l + 2` yields exactly
/// three per-line pieces — the first from its start column to its
/// line's end, the middle spanning the whole line, the last from column
/// zero to its end column.
pub proof fn lemma_three_line_span(code: Seq<char>, l: int, start: int, end: int)
    requires
        ({
            let lines = split_spec(code, '\n');
            &&& 0 <= l
            &&& l + 2 < lines.len()
            &&& piece_start(lines, l) <= start < piece_start(lines, l) + lines[l].len()
            &&& piece_start(lines, l + 2) < end <= piece_start(lines, l + 2) + lines[l + 2].len()
            &&& lines[l + 1].len() > 0
        }),
    ensures
        ({
            let lines = split_spec(code, '\n');
            span_segments(code, start, end) == seq![
                (l, start - piece_start(lines, l), lines[l].len() as int),
                (l + 1, 0int, lines[l + 1].len() as int),
                (l + 2, 0int, end - piece_start(lines, l + 2)),
            ]
        }),
{
    let lines = split_spec(code, '\n');
    assert forall|k: int| 0 <= k < l implies piece_start(lines, k) + (#[trigger] lines[k]).len()
        <= start by {
        lemma_piece_start_mono(lines, k, l);
    }
    lemma_segments_skip_before(lines, 0, l, start, end);
    assert(piece_start(lines, l + 1) == piece_start(lines, l) + lines[l].len() + 1);
    assert(piece_start(lines, l + 2) == piece_start(lines, l + 1) + lines[l + 1].len() + 1);
    assert forall|k: int| l + 3 <= k < lines.len() implies end <= #[trigger] piece_start(
        lines,
        k,
    ) by {
        lemma_piece_start_mono(lines, l + 2, k);
    }
    lemma_segments_empty_after(lines, l + 3, start, end);
    assert(line_segment(lines, l, start, end) =~= seq![
        (l, start - piece_start(lines, l), lines[l].len() as int),
    ]);
    assert(line_segment(lines, l + 1, start, end) =~= seq![(l + 1, 0int, lines[l + 1].len() as int)]);
    assert(line_segment(lines, l + 2, start, end) =~= seq![
        (l + 2, 0int, end - piece_start(lines, l + 2)),
    ]);
    assert(segments_from(lines, l, start, end) == line_segment(lines, l, start, end)
        + segments_from(lines, l + 1, start, end));
    assert(segments_from(lines, l + 1, start, end) == line_segment(lines, l + 1, start, end)
        + segments_from(lines, l + 2, start, end));
    assert(segments_from(lines, l + 2, start, end) == line_segment(lines, l + 2, start, end)
        + segments_from(lines, l + 3, start, end));
    assert(span_segments(code, start, end) =~= seq![
        (l, start - piece_start(lines, l), lines[l].len() as int),
        (l + 1, 0int, lines[l + 1].len() as int),
        (l + 2, 0int, end - piece_start(lines, l + 2)),
    ]);
}

/// True iff the span `[start, end)` lies, nonempty, within the
/// characters of line `l` of `code`.
pub open spec fn single_line_at(code: Seq<char>, l: int, start: int, end: int) -> bool {
    let lines = split_spec(code, '\n');
    &&& 0 <= l < lines.len()
    &&& piece_start(lines, l) <= start < end <= piece_start(lines, l) + lines[l].len()
}

/// A span inside one line resolves to exactly one span on that line,
/// covering the same text.
pub proof fn lemma_single_line_resolved(code: Seq<char>, l: int, group: Seq<char>, start: int, end: int)
    requires
        single_line_at(code, l, start, end),
    ensures
        ({
            let ls = piece_start(split_spec(code, '\n'), l);
            resolved_of_span(group, start, end, code) == seq![
                MatchedSyntaxItemV {
                    group: group,
                    line: l + 1,
                    col_start: start - ls,
                    col_end: end - ls,
                    matched: code.subrange(start, end),
                },
            ]
        }),
{
    let lines = split_spec(code, '\n');
    let ls = piece_start(lines, l);
    assert forall|k: int| 0 <= k < l implies piece_start(lines, k) + (#[trigger] lines[k]).len()
        <= start by {
        lemma_piece_start_mono(lines, k, l);
    }
    lemma_segments_skip_before(lines, 0, l, start, end);
    assert forall|k: int| l + 1 <= k < lines.len() implies end <= #[trigger] piece_start(
        lines,
        k,
    ) by {
        lemma_piece_start_mono(lines, l, k);
    }
    lemma_segments_empty_after(lines, l + 1, start, end);
    assert(line_segment(lines, l, start, end) =~= seq![(l, start - ls, end - ls)]);
    assert(segments_from(lines, l, start, end) == line_segment(lines, l, start, end)
        + segments_from(lines, l + 1, start, end));
    assert(span_segments(code, start, end) =~= seq![(l, start - ls, end - ls)]);
    lemma_split_content(code, '\n');
    lemma_split_starts(code, '\n');
    assert(ls + lines[l].len() < code.len() + 1);
    assert(lines[l] == code.subrange(ls, ls + lines[l].len()));
    assert forall|k: int| 0 <= k < end - start implies lines[l].subrange(start - ls, end - ls)[k]
        == code.subrange(start, end)[k] by {
        assert(lines[l][start - ls + k] == code.subrange(ls, ls + lines[l].len())[start - ls + k]);
    }
    assert(lines[l].subrange(start - ls, end - ls) =~= code.subrange(start, end));
    assert(resolved_of_span(group, start, end, code) =~= seq![
        MatchedSyntaxItemV {
            group: group,
            line: l + 1,
            col_start: start - ls,
            col_end: end - ls,
            matched: code.subrange(start, end),
        },
    ]);
}

/// Resolving no raw spans yields no resolved spans.
pub proof fn lemma_resolve_empty(code: Seq<char>)
    ensures
        resolve_spec(Seq::<SyntaxItemV>::empty(), code) == Seq::<MatchedSyntaxItemV>::empty(),
{
    let e = Seq::<SyntaxItemV>::empty();
    assert(dedup_first(e) =~= e);
    assert(resolve_spec(e, code) =~= Seq::<MatchedSyntaxItemV>::empty());
}

/// Deduplication leaves a collection without duplicates unchanged.
pub proof fn lemma_dedup_distinct_identity(items: Seq<SyntaxItemV>)
    requires
        forall|i: int, j: int| 0 <= i < j < items.len() ==> items[i] != items[j],
    ensures
        dedup_first(items) == items,
    decreases items.len(),
{
    if items.len() > 0 {
        lemma_dedup_distinct_identity(items.drop_last());
        assert(!items.drop_last().contains(items.last())) by {
            if items.drop_last().contains(items.last()) {
                let w = choose|w: int|
                    0 <= w < items.drop_last().len() && items.drop_last()[w] == items.last();
                assert(items[w] == items[items.len() - 1]);
            }
        }
        assert(dedup_first(items) =~= items);
    }
}

proof fn lemma_conditional_pass_empty(items: Seq<SyntaxItemV>, i: int, code: Seq<char>)
    requires
        0 <= i,
        forall|k: int| 0 <= k < items.len() ==> (#[trigger] items[k]).syntax_type is Always,
    ensures
        resolved_conditional_from(items, i, code) == Seq::<MatchedSyntaxItemV>::empty(),
    decreases items.len() - i,
{
    if i < items.len() {
        lemma_conditional_pass_empty(items, i + 1, code);
        assert(resolve_conditional(items, items[i], code) =~= Seq::<MatchedSyntaxItemV>::empty());
        assert(resolved_conditional_from(items, i, code) =~= Seq::<MatchedSyntaxItemV>::empty());
    }
}

proof fn lemma_always_single_from(items: Seq<SyntaxItemV>, i: int, code: Seq<char>)
    requires
        0 <= i <= items.len(),
        forall|k: int| 0 <= k < items.len() ==> (#[trigger] items[k]).syntax_type is Always,
        forall|k: int|
            0 <= k < items.len() ==> exists|l: int|
                single_line_at(code, l, (#[trigger] items[k]).col_start, items[k].col_end),
    ensures
        resolved_always_from(items, i, code).len() == items.len() - i,
        forall|k: int|
            0 <= k < items.len() - i ==> #[trigger] resolved_always_from(items, i, code)[k]
                == resolved_of_span(
                items[i + k].group,
                items[i + k].col_start,
                items[i + k].col_end,
                code,
            )[0],
    decreases items.len() - i,
{
    if i < items.len() {
        lemma_always_single_from(items, i + 1, code);
        let l = choose|l: int| single_line_at(code, l, items[i].col_start, items[i].col_end);
        lemma_single_line_resolved(code, l, items[i].group, items[i].col_start, items[i].col_end);
        let head = resolved_of_span(items[i].group, items[i].col_start, items[i].col_end, code);
        assert(head.len() == 1);
        assert(resolved_always_from(items, i, code) == head + resolved_always_from(
            items,
            i + 1,
            code,
        ));
        assert forall|k: int| 0 <= k < items.len() - i implies #[trigger] resolved_always_from(
            items,
            i,
            code,
        )[k] == resolved_of_span(
            items[i + k].group,
            items[i + k].col_start,
            items[i + k].col_end,
            code,
        )[0] by {
            if k == 0 {
                assert(resolved_always_from(items, i, code)[0] == head[0]);
            } else {
                assert(resolved_always_from(items, i, code)[k] == resolved_always_from(
                    items,
                    i + 1,
                    code,
                )[k - 1]);
            }
        }
    }
}

/// Round trip: a collection of distinct, unconditional, single-line raw
/// spans resolves to exactly one span per raw span, in order, with the
/// group and the covered text unchanged — only the flat character range
/// is converted to a line and columns.
pub proof fn lemma_unconditional_single_line_identity(items: Seq<SyntaxItemV>, code: Seq<char>)
    requires
        forall|i: int, j: int| 0 <= i < j < items.len() ==> items[i] != items[j],
        forall|k: int| 0 <= k < items.len() ==> (#[trigger] items[k]).syntax_type is Always,
        forall|k: int|
            0 <= k < items.len() ==> exists|l: int|
                single_line_at(code, l, (#[trigger] items[k]).col_start, items[k].col_end),
    ensures
        resolve_spec(items, code).len() == items.len(),
        forall|k: int|
            0 <= k < items.len() ==> {
                let r = #[trigger] resolve_spec(items, code)[k];
                &&& r.group == items[k].group
                &&& r.matched == code.subrange(items[k].col_start, items[k].col_end)
                &&& resolved_of_span(items[k].group, items[k].col_start, items[k].col_end, code)
                    == seq![r]
            },
{
    lemma_dedup_distinct_identity(items);
    lemma_conditional_pass_empty(items, 0, code);
    lemma_always_single_from(items, 0, code);
    assert(resolve_spec(items, code) =~= resolved_always_from(items, 0, code));
    assert forall|k: int| 0 <= k < items.len() implies {
        let r = #[trigger] resolve_spec(items, code)[k];
        &&& r.group == items[k].group
        &&& r.matched == code.subrange(items[k].col_start, items[k].col_end)
        &&& resolved_of_span(items[k].group, items[k].col_start, items[k].col_end, code) == seq![r]
    } by {
        let l = choose|l: int| single_line_at(code, l, items[k].col_start, items[k].col_end);
        lemma_single_line_resolved(code, l, items[k].group, items[k].col_start, items[k].col_end);
        assert(resolve_spec(items, code)[k] == resolved_always_from(items, 0, code)[k]);
    }
}

/// Relies on itertools' `Itertools::unique`: it yields the first
/// occurrence of each distinct element, in input order, comparing
/// elements by `Eq` and `Hash`, which for `SyntaxItem` compare the
/// values of all fields.
#[verifier::external_body]
fn unique_items(v: Vec<SyntaxItem>) -> (r: Vec<SyntaxItem>)
    ensures
        r@.map_values(|it: SyntaxItem| it@) == dedup_first(v@.map_values(|it: SyntaxItem| it@)),
{
    v.into_iter().unique().collect()
}

/// A copy of a raw span.
fn clone_item(it: &SyntaxItem) -> (r: SyntaxItem)
    ensures
        r@ == it@,
{
    SyntaxItem {
        group: it.group.clone(),
        col_start: it.col_start,
        col_end: it.col_end,
        syntax_type: clone_type(&it.syntax_type),
    }
}

/// True iff some unconditional raw span of group `group` covers exactly
/// the text of `[cs, ce)`.
fn text_defined(items: &Vec<SyntaxItem>, code: &str, group: &String, cs: usize, ce: usize) -> (r:
    bool)
    requires
        cs <= ce <= code@.len(),
        forall|j: int|
            0 <= j < items@.len() ==> (#[trigger] items@[j])@.col_start <= items@[j]@.col_end
                <= code@.len(),
    ensures
        r == known_text(
            items@.map_values(|it: SyntaxItem| it@),
            code@,
            group@,
            code@.subrange(cs as int, ce as int),
        ),
{
    let ghost iv = items@.map_values(|it: SyntaxItem| it@);
    let ghost text = code@.subrange(cs as int, ce as int);
    let t2 = code.substring_char(cs, ce);
    let mut j: usize = 0;
    while j < items.len()
        invariant
            iv == items@.map_values(|it: SyntaxItem| it@),
            iv.len() == items@.len(),
            j <= items@.len(),
            cs <= ce <= code@.len(),
            t2@ == text,
            text == code@.subrange(cs as int, ce as int),
            forall|k: int|
                0 <= k < items@.len() ==> (#[trigger] iv[k]).col_start <= iv[k].col_end
                    <= code@.len(),
            forall|k: int|
                0 <= k < j ==> !((#[trigger] iv[k]).syntax_type is Always && iv[k].group == group@
                    && span_text(code@, iv[k]) == text),
        decreases items@.len() - j,
    {
        let it = &items[j];
        proof {
            assert(it@ == iv[j as int]);
        }
        let is_always = match &it.syntax_type {
            SyntaxItemType::Always => true,
            _ => false,
        };
        if is_always && str_eq(it.group.as_str(), group.as_str()) {
            let t1 = code.substring_char(it.col_start, it.col_end);
            if str_eq(t1, t2) {
                proof {
                    assert(iv[j as int].syntax_type is Always && iv[j as int].group == group@
                        && span_text(code@, iv[j as int]) == text);
                }
                return true;
            }
        }
        j += 1;
    }
    false
}

/// A copy of a conditionality tag.
fn clone_type(t: &SyntaxItemType) -> (r: SyntaxItemType)
    ensures
        r@ == t@,
{
    match t {
        SyntaxItemType::Always => SyntaxItemType::Always,
        SyntaxItemType::IfDefined(g) => SyntaxItemType::IfDefined(g.clone()),
        SyntaxItemType::IfDefinedElse(g, e) => SyntaxItemType::IfDefinedElse(g.clone(), e.clone()),
    }
}

/// True iff some group of the set bears this name.
fn name_defined(groups: &Vec<GroupConfig>, name: &String) -> (r: bool)
    ensures
        r == name_defined_spec(groups.deep_view(), name@),
{
    let mut i: usize = 0;
    while i < groups.len()
        invariant
            i <= groups@.len(),
            forall|j: int| 0 <= j < i ==> (#[trigger] groups.deep_view()[j]).name != name@,
        decreases groups@.len() - i,
    {
        if str_eq(groups[i].name.as_str(), name.as_str()) {
            proof {
                assert(groups.deep_view()[i as int].name == name@);
            }
            return true;
        }
        i += 1;
    }
    false
}

/// The pattern terms of one pattern string, or the index of its first
/// empty token.
fn parse_pattern(s: &str) -> (r: Result<Vec<MatchPattern>, usize>)
    ensures
        r is Ok ==> pattern_tokens_valid(s@) && r->Ok_0@.map_values(|t: MatchPattern| t@)
            == terms_of_pattern(s@),
        r is Err ==> !pattern_tokens_valid(s@),
{
    let toks = split_on(s, ' ');
    let mut pat: Vec<MatchPattern> = Vec::new();
    let mut ti: usize = 0;
    proof {
        assert(pat@.map_values(|t: MatchPattern| t@) =~= terms_of_pattern(s@).take(0));
    }
    while ti < toks.len()
        invariant
            toks.deep_view() == split_spec(s@, ' '),
            toks@.len() == split_spec(s@, ' ').len(),
            ti <= toks@.len(),
            forall|j: int| 0 <= j < ti ==> (#[trigger] split_spec(s@, ' ')[j]).len() > 0,
            pat@.map_values(|t: MatchPattern| t@) == terms_of_pattern(s@).take(ti as int),
        decreases toks@.len() - ti,
    {
        let ghost pv = pat@.map_values(|t: MatchPattern| t@);
        let tok = &toks[ti];
        let ghost tokv = split_spec(s@, ' ')[ti as int];
        proof {
            assert(toks.deep_view()[ti as int] == tokv);
            assert(tok@ == tokv);
        }
        let tlen = tok.as_str().unicode_len();
        if tlen == 0 {
            proof {
                assert(!pattern_tokens_valid(s@));
            }
            return Err(ti);
        }
        let term = if tok.as_str().get_char(0) == '^' {
            MatchPattern::NotMatches(tok.as_str().substring_char(1, tlen).to_owned())
        } else {
            MatchPattern::Matches(tok.clone())
        };
        proof {
            assert(term@ == term_of_token(tokv));
        }
        pat.push(term);
        ti += 1;
        proof {
            assert(terms_of_pattern(s@).len() == split_spec(s@, ' ').len());
            assert(terms_of_pattern(s@)[ti - 1] == term_of_token(tokv));
            assert(pat@.map_values(|t: MatchPattern| t@) =~= pv.push(term_of_token(tokv)));
            assert(terms_of_pattern(s@).take(ti as int) =~= terms_of_pattern(s@).take(ti - 1).push(
                term_of_token(tokv),
            ));
        }
    }
    proof {
        assert(terms_of_pattern(s@).take(toks@.len() as int) =~= terms_of_pattern(s@));
    }
    Ok(pat)
}

impl SyntaxMatcher {
    /// Compiles a rule set given as plain values, with its style table.
    /// Compilation reports the first configuration error — an empty
    /// pattern list, an empty pattern term, or a dangling conditional
    /// reference — and otherwise yields one fresh matcher per
    /// alternative pattern of every group, in order, with no raw span
    /// collected yet.
    pub fn from_groups(groups: Vec<GroupConfig>, colors: Vec<(String, String)>) -> (r: Result<
        SyntaxMatcher,
        ConfigError,
    >)
        ensures
            r is Ok <==> config_valid(groups.deep_view()),
            r is Ok ==> r->Ok_0@ == (SyntaxMatcherV {
                matchers: compiled_matchers(groups.deep_view()),
                items: Seq::<SyntaxItemV>::empty(),
                colors: colors@.map_values(|c: (String, String)| (c.0@, c.1@)),
            }) && engine_wf(r->Ok_0@),
            r is Err ==> Some(r->Err_0@) == config_error(groups.deep_view()),
    {
        let ghost dv = groups.deep_view();
        let ngroups = groups.len();
        proof {
            assert(dv.len() == groups@.len());
        }
        let mut gi: usize = 0;
        while gi < ngroups
            invariant
                dv == groups.deep_view(),
                ngroups == dv.len(),
                gi <= ngroups,
                first_local_error(dv, 0) == first_local_error(dv, gi as int),
                forall|j: int| 0 <= j < gi ==> group_local_valid(#[trigger] dv[j]),
            decreases ngroups - gi,
        {
            let g = &groups[gi];
            proof {
                assert(g.deep_view() == dv[gi as int]);
            }
            if g.patterns.len() == 0 {
                proof {
                    assert(g.patterns.deep_view().len() == 0);
                    assert(group_local_error(dv[gi as int]) == Some(
                        ConfigErrorV::EmptyPatternList(dv[gi as int].name),
                    ));
                    assert(first_local_error(dv, gi as int) == Some(
                        ConfigErrorV::EmptyPatternList(dv[gi as int].name),
                    ));
                    assert(config_error(dv) == Some(
                        ConfigErrorV::EmptyPatternList(dv[gi as int].name),
                    ));
                    assert(!group_local_valid(dv[gi as int]));
                    assert(!config_valid(dv));
                }
                return Err(ConfigError::EmptyPatternList(g.name.clone()));
            }
            proof {
                assert(g.patterns.deep_view().len() == g.patterns@.len());
                assert(dv[gi as int].patterns.len() > 0);
            }
            let mut pi: usize = 0;
            while pi < g.patterns.len()
                invariant
                    dv == groups.deep_view(),
                    ngroups == dv.len(),
                    gi < ngroups,
                    g == &groups[gi as int],
                    g.deep_view() == dv[gi as int],
                    pi <= g.patterns@.len(),
                    g.patterns@.len() == dv[gi as int].patterns.len(),
                    dv[gi as int].patterns.len() > 0,
                    first_local_error(dv, 0) == first_local_error(dv, gi as int),
                    forall|j: int|
                        0 <= j < pi ==> pattern_tokens_valid(
                            #[trigger] dv[gi as int].patterns[j],
                        ),
                decreases g.patterns@.len() - pi,
            {
                let pr = parse_pattern(g.patterns[pi].as_str());
                proof {
                    assert(g.patterns.deep_view()[pi as int] == dv[gi as int].patterns[pi as int]);
                }
                match pr {
                    Ok(_) => {},
                    Err(_) => {
                        proof {
                            assert(!pattern_tokens_valid(dv[gi as int].patterns[pi as int]));
                            assert(dv[gi as int].patterns.len() > 0);
                            assert(group_local_error(dv[gi as int]) == Some(
                                ConfigErrorV::EmptyTerm(dv[gi as int].name),
                            ));
                            assert(first_local_error(dv, gi as int) == Some(
                                ConfigErrorV::EmptyTerm(dv[gi as int].name),
                            ));
                            assert(config_error(dv) == Some(
                                ConfigErrorV::EmptyTerm(dv[gi as int].name),
                            ));
                            assert(!group_local_valid(dv[gi as int]));
                            assert(!config_valid(dv));
                        }
                        return Err(ConfigError::EmptyTerm(g.name.clone()));
                    },
                }
                pi += 1;
            }
            proof {
                assert(group_local_valid(dv[gi as int]));
                assert(group_local_error(dv[gi as int]) is None);
            }
            gi += 1;
        }
        proof {
            assert(first_local_error(dv, ngroups as int) is None);
            assert(first_local_error(dv, 0) is None);
        }
        let mut gi: usize = 0;
        while gi < ngroups
            invariant
                dv == groups.deep_view(),
                ngroups == dv.len(),
                gi <= ngroups,
                first_local_error(dv, 0) is None,
                forall|j: int| 0 <= j < dv.len() ==> group_local_valid(#[trigger] dv[j]),
                first_ref_error(dv, 0) == first_ref_error(dv, gi as int),
                forall|j: int| 0 <= j < gi ==> group_refs_valid(dv, #[trigger] dv[j]),
            decreases ngroups - gi,
        {
            let g = &groups[gi];
            proof {
                assert(g.deep_view() == dv[gi as int]);
            }
            match &g.if_defined {
                Some(p) => {
                    if !name_defined(&groups, p) {
                        proof {
                            assert(group_ref_error(dv, dv[gi as int]) == Some(
                                ConfigErrorV::UndefinedGroup(p@),
                            ));
                            assert(first_ref_error(dv, gi as int) == Some(
                                ConfigErrorV::UndefinedGroup(p@),
                            ));
                            assert(config_error(dv) == Some(ConfigErrorV::UndefinedGroup(p@)));
                            assert(!group_refs_valid(dv, dv[gi as int]));
                            assert(!config_valid(dv));
                        }
                        return Err(ConfigError::UndefinedGroup(p.clone()));
                    }
                    match &g.or_else {
                        Some(o) => {
                            if !name_defined(&groups, o) {
                                proof {
                                    assert(group_ref_error(dv, dv[gi as int]) == Some(
                                        ConfigErrorV::UndefinedGroup(o@),
                                    ));
                                    assert(first_ref_error(dv, gi as int) == Some(
                                        ConfigErrorV::UndefinedGroup(o@),
                                    ));
                                    assert(config_error(dv) == Some(
                                        ConfigErrorV::UndefinedGroup(o@),
                                    ));
                                    assert(!group_refs_valid(dv, dv[gi as int]));
                                    assert(!config_valid(dv));
                                }
                                return Err(ConfigError::UndefinedGroup(o.clone()));
                            }
                        },
                        None => {},
                    }
                },
                None => {},
            }
            proof {
                assert(group_refs_valid(dv, dv[gi as int]));
                assert(group_ref_error(dv, dv[gi as int]) is None);
            }
            gi += 1;
        }
        proof {
            assert(first_ref_error(dv, ngroups as int) is None);
            assert(config_valid(dv));
        }
        let mut matchers: Vec<GroupMatcher> = Vec::new();
        let mut gi: usize = 0;
        proof {
            assert(matchers@.map_values(|m: GroupMatcher| m@) =~= compiled_prefix(dv, 0));
        }
        while gi < ngroups
            invariant
                dv == groups.deep_view(),
                ngroups == dv.len(),
                gi <= ngroups,
                forall|j: int| 0 <= j < dv.len() ==> group_local_valid(#[trigger] dv[j]),
                matchers@.map_values(|m: GroupMatcher| m@) == compiled_prefix(dv, gi as int),
                forall|j: int|
                    0 <= j < matchers@.len() ==> wf_state((#[trigger] matchers@[j])@.state),
            decreases ngroups - gi,
        {
            let g = &groups[gi];
            let ghost gv = dv[gi as int];
            proof {
                assert(g.deep_view() == gv);
            }
            let syntax_type = match &g.if_defined {
                Some(p) => match &g.or_else {
                    Some(o) => SyntaxItemType::IfDefinedElse(p.clone(), o.clone()),
                    None => SyntaxItemType::IfDefined(p.clone()),
                },
                None => SyntaxItemType::Always,
            };
            proof {
                assert(syntax_type@ == cond_of_group(gv));
            }
            let mut pi: usize = 0;
            proof {
                assert(group_compiled(gv).take(0) =~= Seq::<GroupMatcherV>::empty());
            }
            while pi < g.patterns.len()
                invariant
                    dv == groups.deep_view(),
                    ngroups == dv.len(),
                    gi < ngroups,
                    g == &groups[gi as int],
                    gv == dv[gi as int],
                    g.deep_view() == gv,
                    syntax_type@ == cond_of_group(gv),
                    pi <= g.patterns@.len(),
                    g.patterns@.len() == gv.patterns.len(),
                    forall|j: int| 0 <= j < dv.len() ==> group_local_valid(#[trigger] dv[j]),
                    matchers@.map_values(|m: GroupMatcher| m@) == compiled_prefix(dv, gi as int)
                        + group_compiled(gv).take(pi as int),
                    forall|j: int|
                        0 <= j < matchers@.len() ==> wf_state((#[trigger] matchers@[j])@.state),
                decreases g.patterns@.len() - pi,
            {
                let ghost mv0 = matchers@.map_values(|m: GroupMatcher| m@);
                proof {
                    assert(g.patterns.deep_view()[pi as int] == gv.patterns[pi as int]);
                    assert(pattern_tokens_valid(gv.patterns[pi as int]));
                }
                let pr = parse_pattern(g.patterns[pi].as_str());
                let pat = match pr {
                    Ok(pat) => pat,
                    Err(_) => {
                        proof {
                            assert(false);
                        }
                        return Err(ConfigError::EmptyTerm(g.name.clone()));
                    },
                };
                let bc = BreadcrumbsMatcher::new(pat);
                let gm = GroupMatcher { bc, group: g.name.clone(), syntax_type: clone_type(
                    &syntax_type,
                ) };
                proof {
                    assert(gm@ == group_compiled(gv)[pi as int]);
                }
                matchers.push(gm);
                pi += 1;
                proof {
                    assert(matchers@.map_values(|m: GroupMatcher| m@) =~= mv0.push(
                        group_compiled(gv)[pi - 1],
                    ));
                    assert(group_compiled(gv).take(pi as int) =~= group_compiled(gv).take(pi - 1)
                        .push(group_compiled(gv)[pi - 1]));
                    assert(mv0.push(group_compiled(gv)[pi - 1]) =~= compiled_prefix(dv, gi as int)
                        + group_compiled(gv).take(pi as int));
                }
            }
            gi += 1;
            proof {
                assert(group_compiled(gv).take(gv.patterns.len() as int) =~= group_compiled(gv));
                assert(compiled_prefix(dv, gi as int) == compiled_prefix(dv, gi - 1)
                    + group_compiled(gv));
            }
        }
        proof {
            assert(matchers@.map_values(|m: GroupMatcher| m@) == compiled_matchers(dv));
        }
        let r = SyntaxMatcher { matchers, syntax: Vec::new(), colors };
        proof {
            assert(r@.items =~= Seq::<SyntaxItemV>::empty());
            assert(r@ =~= (SyntaxMatcherV {
                matchers: compiled_matchers(dv),
                items: Seq::<SyntaxItemV>::empty(),
                colors: r@.colors,
            }));
        }
        Ok(r)
    }

    /// The style table, as pairs of group name and style directive.
    pub fn get_colors(&self) -> (r: Vec<(String, String)>)
        ensures
            r@.map_values(|c: (String, String)| (c.0@, c.1@)) == self@.colors,
    {
        let mut out: Vec<(String, String)> = Vec::new();
        let mut i: usize = 0;
        proof {
            assert(out@.map_values(|c: (String, String)| (c.0@, c.1@)) =~= self@.colors.take(0));
        }
        while i < self.colors.len()
            invariant
                i <= self.colors@.len(),
                self@.colors.len() == self.colors@.len(),
                self@.colors == self.colors@.map_values(|c: (String, String)| (c.0@, c.1@)),
                out@.map_values(|c: (String, String)| (c.0@, c.1@)) == self@.colors.take(i as int),
            decreases self.colors@.len() - i,
        {
            let ghost m0 = out@.map_values(|c: (String, String)| (c.0@, c.1@));
            let pair = (self.colors[i].0.clone(), self.colors[i].1.clone());
            out.push(pair);
            i += 1;
            proof {
                assert(out@.map_values(|c: (String, String)| (c.0@, c.1@)) =~= m0.push(
                    self@.colors[i - 1],
                ));
                assert(self@.colors.take(i as int) =~= self@.colors.take(i - 1).push(
                    self@.colors[i - 1],
                ));
            }
        }
        proof {
            assert(self@.colors.take(self@.colors.len() as int) =~= self@.colors);
        }
        out
    }

    /// Fans one enter event out to every matcher, and appends a raw span
    /// for each matcher that reports a match, provided the event carries
    /// a concrete locate.
    pub fn enter(&mut self, label: &str, locate: Option<(usize, usize)>)
        requires
            engine_wf(old(self)@),
            match locate {
                Some(lc) => lc.0 + lc.1 <= usize::MAX,
                None => true,
            },
        ensures
            final(self)@.matchers.len() == old(self)@.matchers.len(),
            forall|j: int|
                0 <= j < old(self)@.matchers.len() ==> #[trigger] final(self)@.matchers[j]
                    == (GroupMatcherV {
                    state: enter_step(old(self)@.matchers[j].state, label@),
                    group: old(self)@.matchers[j].group,
                    syntax_type: old(self)@.matchers[j].syntax_type,
                }),
            final(self)@.items == old(self)@.items + fired_from(
                old(self)@.matchers,
                0,
                label@,
                loc_view(locate),
            ),
            final(self)@.colors == old(self)@.colors,
            engine_wf(final(self)@),
    {
        let ghost ms0 = self@.matchers;
        let ghost items0 = self@.items;
        let ghost x = label@;
        let ghost loc = loc_view(locate);
        let n = self.matchers.len();
        let mut i: usize = 0;
        proof {
            assert(self@.items + Seq::<SyntaxItemV>::empty() =~= items0);
            assert(fired_from(ms0, 0, x, loc).take(0) =~= Seq::<SyntaxItemV>::empty());
            assert forall|j: int| 0 <= j < n implies wf_state(
                (#[trigger] self.matchers@[j])@.state,
            ) by {
                assert(self@.matchers[j] == self.matchers@[j]@);
            }
        }
        while i < n
            invariant
                n == self.matchers@.len(),
                n == ms0.len(),
                i <= n,
                x == label@,
                loc == loc_view(locate),
                match locate {
                    Some(lc) => lc.0 + lc.1 <= usize::MAX,
                    None => true,
                },
                forall|j: int| i <= j < n ==> (#[trigger] self.matchers@[j])@ == ms0[j],
                forall|j: int| i <= j < n ==> wf_state((#[trigger] self.matchers@[j])@.state),
                forall|j: int|
                    0 <= j < i ==> (#[trigger] self.matchers@[j])@ == (GroupMatcherV {
                        state: enter_step(ms0[j].state, x),
                        group: ms0[j].group,
                        syntax_type: ms0[j].syntax_type,
                    }),
                forall|j: int| 0 <= j < i ==> wf_state((#[trigger] self.matchers@[j])@.state),
                self@.items + fired_from(ms0, i as int, x, loc) == items0 + fired_from(
                    ms0,
                    0,
                    x,
                    loc,
                ),
                self@.colors == old(self)@.colors,
            decreases n - i,
        {
            let ghost items_pre = self@.items;
            let ghost vpre = self.matchers@;
            proof {
                assert((self.matchers@[i as int])@ == ms0[i as int]);
                assert(wf_state(self.matchers@[i as int].bc@));
            }
            let gm = &mut self.matchers[i];
            let fired = gm.bc.enter(label);
            proof {
                assert(forall|j: int|
                    0 <= j < n && j != i ==> #[trigger] self.matchers@[j] == vpre[j]);
                assert((self.matchers@[i as int])@ == (GroupMatcherV {
                    state: enter_step(ms0[i as int].state, x),
                    group: ms0[i as int].group,
                    syntax_type: ms0[i as int].syntax_type,
                }));
                assert(self@.items =~= items_pre);
            }
            if fired {
                match locate {
                    Some(lc) => {
                        let item = SyntaxItem {
                            group: self.matchers[i].group.clone(),
                            col_start: lc.0,
                            col_end: lc.0 + lc.1,
                            syntax_type: clone_type(&self.matchers[i].syntax_type),
                        };
                        proof {
                            assert(item@ == fired_one(ms0[i as int], x, loc)[0]);
                        }
                        self.syntax.push(item);
                        proof {
                            assert(self@.items =~= items_pre.push(
                                fired_one(ms0[i as int], x, loc)[0],
                            ));
                            assert(fired_one(ms0[i as int], x, loc) =~= seq![
                                fired_one(ms0[i as int], x, loc)[0],
                            ]);
                        }
                    },
                    None => {
                        proof {
                            assert(fired_one(ms0[i as int], x, loc) =~= Seq::<
                                SyntaxItemV,
                            >::empty());
                        }
                    },
                }
            } else {
                proof {
                    assert(fired_one(ms0[i as int], x, loc) =~= Seq::<SyntaxItemV>::empty());
                }
            }
            i += 1;
            proof {
                assert(fired_from(ms0, i - 1, x, loc) == fired_one(ms0[i - 1], x, loc)
                    + fired_from(ms0, i as int, x, loc));
                assert(self@.items =~= items_pre + fired_one(ms0[i - 1], x, loc));
                assert(self@.items + fired_from(ms0, i as int, x, loc) =~= items_pre + fired_from(
                    ms0,
                    i - 1,
                    x,
                    loc,
                ));
            }
        }
        proof {
            assert(fired_from(ms0, n as int, x, loc) =~= Seq::<SyntaxItemV>::empty());
            assert(self@.items =~= items0 + fired_from(ms0, 0, x, loc));
            assert(forall|j: int|
                0 <= j < n ==> #[trigger] self@.matchers[j] == (self.matchers@[j])@);
        }
    }

    /// Fans one leave event out to every matcher; the collected raw
    /// spans are untouched.
    pub fn leave(&mut self, label: &str)
        requires
            engine_wf(old(self)@),
        ensures
            final(self)@.matchers.len() == old(self)@.matchers.len(),
            forall|j: int|
                0 <= j < old(self)@.matchers.len() ==> #[trigger] final(self)@.matchers[j]
                    == (GroupMatcherV {
                    state: leave_step(old(self)@.matchers[j].state),
                    group: old(self)@.matchers[j].group,
                    syntax_type: old(self)@.matchers[j].syntax_type,
                }),
            final(self)@.items == old(self)@.items,
            final(self)@.colors == old(self)@.colors,
            engine_wf(final(self)@),
    {
        let ghost ms0 = self@.matchers;
        let n = self.matchers.len();
        let mut i: usize = 0;
        proof {
            assert forall|j: int| 0 <= j < n implies wf_state(
                (#[trigger] self.matchers@[j])@.state,
            ) by {
                assert(self@.matchers[j] == self.matchers@[j]@);
            }
        }
        while i < n
            invariant
                n == self.matchers@.len(),
                n == ms0.len(),
                i <= n,
                forall|j: int| i <= j < n ==> (#[trigger] self.matchers@[j])@ == ms0[j],
                forall|j: int| i <= j < n ==> wf_state((#[trigger] self.matchers@[j])@.state),
                forall|j: int|
                    0 <= j < i ==> (#[trigger] self.matchers@[j])@ == (GroupMatcherV {
                        state: leave_step(ms0[j].state),
                        group: ms0[j].group,
                        syntax_type: ms0[j].syntax_type,
                    }),
                forall|j: int| 0 <= j < i ==> wf_state((#[trigger] self.matchers@[j])@.state),
                self@.items == old(self)@.items,
                self@.colors == old(self)@.colors,
            decreases n - i,
        {
            let ghost vpre = self.matchers@;
            proof {
                assert((self.matchers@[i as int])@ == ms0[i as int]);
                assert(wf_state(self.matchers@[i as int].bc@));
            }
            let gm = &mut self.matchers[i];
            gm.bc.leave(label);
            proof {
                assert(forall|j: int|
                    0 <= j < n && j != i ==> #[trigger] self.matchers@[j] == vpre[j]);
                assert((self.matchers@[i as int])@ == (GroupMatcherV {
                    state: leave_step(ms0[i as int].state),
                    group: ms0[i as int].group,
                    syntax_type: ms0[i as int].syntax_type,
                }));
                assert(self@.items =~= old(self)@.items);
            }
            i += 1;
        }
        proof {
            assert(forall|j: int|
                0 <= j < n ==> #[trigger] self@.matchers[j] == (self.matchers@[j])@);
        }
    }

    /// Resolves the collected raw spans against `code`: duplicates are
    /// dropped, unconditional spans register their covered text for
    /// their group, conditional spans are kept, dropped or renamed by
    /// whether their text is registered, and every surviving span is
    /// split into per-line resolved spans.  Every raw span must lie
    /// within `code`.
    pub fn compute(self, code: &str) -> (r: Vec<MatchedSyntaxItem>)
        requires
            code@.len() < usize::MAX,
            forall|i: int|
                0 <= i < self@.items.len() ==> (#[trigger] self@.items[i]).col_start
                    < self@.items[i].col_end <= code@.len(),
        ensures
            r.deep_view() == resolve_spec(self@.items, code@),
    {
        let ghost items0 = self@.items;
        let SyntaxMatcher { matchers, syntax, colors } = self;
        proof {
            assert(syntax@.map_values(|it: SyntaxItem| it@) == items0);
        }
        let deduped = unique_items(syntax);
        let ghost ds = dedup_first(items0);
        proof {
            lemma_dedup_first_elements(items0);
            assert forall|k: int| 0 <= k < ds.len() implies (#[trigger] ds[k]).col_start
                < ds[k].col_end <= code@.len() by {
                assert(items0.contains(ds[k]));
                let w = choose|w: int| 0 <= w < items0.len() && items0[w] == ds[k];
                assert(items0[w] == ds[k]);
            }
            assert forall|k: int| 0 <= k < deduped@.len() implies (#[trigger] deduped@[k])@.col_start
                <= deduped@[k]@.col_end <= code@.len() by {
                assert(deduped@.map_values(|it: SyntaxItem| it@)[k] == ds[k]);
            }
        }
        let mut out: Vec<MatchedSyntaxItem> = Vec::new();
        let n = deduped.len();
        let mut i: usize = 0;
        proof {
            assert(out.deep_view() + resolved_always_from(ds, 0, code@) =~= resolved_always_from(
                ds,
                0,
                code@,
            ));
        }
        while i < n
            invariant
                ds == dedup_first(items0),
                deduped@.map_values(|it: SyntaxItem| it@) == ds,
                n == deduped@.len(),
                n == ds.len(),
                i <= n,
                code@.len() < usize::MAX,
                forall|k: int|
                    0 <= k < ds.len() ==> (#[trigger] ds[k]).col_start < ds[k].col_end
                        <= code@.len(),
                out.deep_view() + resolved_always_from(ds, i as int, code@)
                    == resolved_always_from(ds, 0, code@),
            decreases n - i,
        {
            let ghost dv0 = out.deep_view();
            let it = &deduped[i];
            proof {
                assert(it@ == ds[i as int]);
            }
            let is_always = match &it.syntax_type {
                SyntaxItemType::Always => true,
                _ => false,
            };
            if is_always {
                let mut add = MatchedSyntaxItem::from_unmatched(clone_item(it), code);
                let ghost addv = add.deep_view();
                out.append(&mut add);
                proof {
                    assert(addv == resolved_of_span(
                        ds[i as int].group,
                        ds[i as int].col_start,
                        ds[i as int].col_end,
                        code@,
                    ));
                    assert(out.deep_view() =~= dv0 + addv);
                }
            }
            i += 1;
            proof {
                assert(resolved_always_from(ds, i - 1, code@) == (if ds[i - 1].syntax_type
                    is Always {
                    resolved_of_span(ds[i - 1].group, ds[i - 1].col_start, ds[i - 1].col_end, code@)
                } else {
                    Seq::<MatchedSyntaxItemV>::empty()
                }) + resolved_always_from(ds, i as int, code@));
                if !(ds[i - 1].syntax_type is Always) {
                    assert(out.deep_view() =~= dv0 + Seq::<MatchedSyntaxItemV>::empty());
                }
                assert(out.deep_view() + resolved_always_from(ds, i as int, code@)
                    =~= resolved_always_from(ds, 0, code@));
            }
        }
        let ghost pass1 = out.deep_view();
        let mut i: usize = 0;
        proof {
            assert(out.deep_view() + resolved_conditional_from(ds, 0, code@) =~= pass1
                + resolved_conditional_from(ds, 0, code@));
        }
        while i < n
            invariant
                ds == dedup_first(items0),
                deduped@.map_values(|it: SyntaxItem| it@) == ds,
                n == deduped@.len(),
                n == ds.len(),
                i <= n,
                code@.len() < usize::MAX,
                forall|k: int|
                    0 <= k < ds.len() ==> (#[trigger] ds[k]).col_start < ds[k].col_end
                        <= code@.len(),
                out.deep_view() + resolved_conditional_from(ds, i as int, code@) == pass1
                    + resolved_conditional_from(ds, 0, code@),
            decreases n - i,
        {
            let ghost dv0 = out.deep_view();
            let it = &deduped[i];
            proof {
                assert(it@ == ds[i as int]);
                assert forall|k: int| 0 <= k < deduped@.len() implies (#[trigger] deduped@[
                    k
                ])@.col_start <= deduped@[k]@.col_end <= code@.len() by {
                    assert(deduped@.map_values(|x: SyntaxItem| x@)[k] == ds[k]);
                }
            }
            match &it.syntax_type {
                SyntaxItemType::Always => {
                    proof {
                        assert(resolve_conditional(ds, ds[i as int], code@) =~= Seq::<
                            MatchedSyntaxItemV,
                        >::empty());
                    }
                },
                SyntaxItemType::IfDefined(p) => {
                    if text_defined(&deduped, code, p, it.col_start, it.col_end) {
                        let mut add = MatchedSyntaxItem::from_unmatched(clone_item(it), code);
                        let ghost addv = add.deep_view();
                        out.append(&mut add);
                        proof {
                            assert(out.deep_view() =~= dv0 + addv);
                            assert(addv == resolve_conditional(ds, ds[i as int], code@));
                        }
                    } else {
                        proof {
                            assert(resolve_conditional(ds, ds[i as int], code@) =~= Seq::<
                                MatchedSyntaxItemV,
                            >::empty());
                        }
                    }
                },
                SyntaxItemType::IfDefinedElse(p, o) => {
                    let defined = text_defined(&deduped, code, p, it.col_start, it.col_end);
                    let group = if defined {
                        it.group.clone()
                    } else {
                        o.clone()
                    };
                    let item = SyntaxItem {
                        group,
                        col_start: it.col_start,
                        col_end: it.col_end,
                        syntax_type: SyntaxItemType::Always,
                    };
                    let mut add = MatchedSyntaxItem::from_unmatched(item, code);
                    let ghost addv = add.deep_view();
                    out.append(&mut add);
                    proof {
                        assert(out.deep_view() =~= dv0 + addv);
                        assert(addv == resolve_conditional(ds, ds[i as int], code@));
                    }
                },
            }
            i += 1;
            proof {
                assert(resolved_conditional_from(ds, i - 1, code@) == resolve_conditional(
                    ds,
                    ds[i - 1],
                    code@,
                ) + resolved_conditional_from(ds, i as int, code@));
                assert(out.deep_view() + resolved_conditional_from(ds, i as int, code@) =~= pass1
                    + resolved_conditional_from(ds, 0, code@));
            }
        }
        proof {
            assert(out.deep_view() =~= pass1 + resolved_conditional_from(ds, 0, code@));
            assert(out.deep_view() =~= resolve_spec(items0, code@));
        }
        out
    }
}

} // verus!
