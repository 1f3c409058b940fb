//! The rule set loader.
//!
//! A rule definition text is read line by line: lines that are blank or
//! begin with `#` are ignored; a line beginning with a non-whitespace
//! character starts a new rule named by that exact line; every following
//! line beginning with whitespace is one alternative pattern of the
//! current rule, tokenized by the tokenizer. A pattern line before the
//! first rule name, a rule with no patterns, and a `___` wildcard without
//! a literal anchor after it are definition errors, rejected at load time.

use vstd::prelude::*;
use crate::lexer::SpecToken;
use crate::lexer::Token;
use crate::lexer::chars_of;
use crate::lexer::is_ws;
use crate::lexer::lemma_next_newline;
use crate::lexer::lex;
use crate::lexer::next_newline;
use crate::lexer::next_newline_at;
use crate::lexer::spec_lex;
use crate::lexer::token_views;
use crate::lexer::ws_char;
use crate::matcher::all_underscores;
use crate::matcher::underscores;
use crate::matcher::wf_pattern;

verus! {

// ---------------------------------------------------------------------------
// Rules and rule sets
// ---------------------------------------------------------------------------

/// The mathematical content of a rule: its name and its alternative
/// patterns, each a token sequence, in declaration order.
#[verifier::ext_equal]
pub ghost struct SpecRule {
    pub name: Seq<char>,
    pub patterns: Seq<Seq<SpecToken>>,
}

/// A named rule: any one of its patterns matching triggers it.
pub struct Rule {
    pub name: String,
    pub patterns: Vec<Vec<Token>>,
}

impl View for Rule {
    type V = SpecRule;

    open spec fn view(&self) -> SpecRule {
        SpecRule {
            name: self.name@,
            patterns: self.patterns@.map_values(|p: Vec<Token>| token_views(p@)),
        }
    }
}

/// An immutable collection of rules in load order, constructed once and
/// then only read.
pub struct RuleSet {
    pub rules: Vec<Rule>,
}

impl View for RuleSet {
    type V = Seq<SpecRule>;

    open spec fn view(&self) -> Seq<SpecRule> {
        self.rules@.map_values(|r: Rule| r@)
    }
}

pub open spec fn wf_rule(r: SpecRule) -> bool {
    forall|q: int| 0 <= q < r.patterns.len() ==> wf_pattern(#[trigger] r.patterns[q])
}

pub open spec fn wf_rules(rs: Seq<SpecRule>) -> bool {
    forall|k: int| 0 <= k < rs.len() ==> wf_rule(#[trigger] rs[k])
}

/// Why a rule definition text was rejected.
#[derive(Clone, Copy, PartialEq, Eq, Structural, Debug)]
pub enum RuleError {
    /// A pattern line stood before the first rule-name line.
    PatternBeforeName,
    /// A rule-name line had no pattern lines after it.
    RuleWithoutPatterns,
    /// A pattern ended with the `___` wildcard, which needs an anchor.
    RunWildcardAtEnd,
    /// A `___` wildcard was followed by another wildcard, not a literal.
    RunWildcardBeforeWildcard,
}

// ---------------------------------------------------------------------------
// The load-time pattern checks
// ---------------------------------------------------------------------------

pub open spec fn is_wildcard(v: Seq<char>) -> bool {
    all_underscores(v, 1) || all_underscores(v, 2) || all_underscores(v, 3)
}

pub open spec fn has_trailing_run_wildcard(p: Seq<SpecToken>) -> bool {
    p.len() > 0 && all_underscores(p[p.len() - 1].value, 3)
}

pub open spec fn has_run_wildcard_before_wildcard(p: Seq<SpecToken>) -> bool {
    exists|k: int|
        0 <= k && k + 1 < p.len() && all_underscores((#[trigger] p[k]).value, 3)
            && is_wildcard(p[k + 1].value)
}

fn pattern_has_trailing_run(pat: &Vec<Token>) -> (r: bool)
    ensures
        r == has_trailing_run_wildcard(token_views(pat@)),
{
    let n: usize = pat.len();
    if n == 0 {
        return false;
    }
    underscores(&pat[n - 1].value, 3)
}

fn pattern_has_run_before_wildcard(pat: &Vec<Token>) -> (r: bool)
    ensures
        r == has_run_wildcard_before_wildcard(token_views(pat@)),
{
    let n: usize = pat.len();
    let mut k: usize = 0;
    while k + 1 < n
        invariant
            n == pat@.len(),
            k <= n,
            k == 0 || k + 1 <= n,
            forall|m: int|
                0 <= m && m + 1 < n && m < k ==> !(all_underscores(
                    (#[trigger] token_views(pat@)[m]).value, 3)
                    && is_wildcard(token_views(pat@)[m + 1].value)),
        decreases n - k,
    {
        if underscores(&pat[k].value, 3) {
            let w = underscores(&pat[k + 1].value, 1) || underscores(&pat[k + 1].value, 2)
                || underscores(&pat[k + 1].value, 3);
            if w {
                proof {
                    assert(all_underscores(token_views(pat@)[k as int].value, 3));
                    assert(is_wildcard(token_views(pat@)[k as int + 1].value));
                }
                return true;
            }
        }
        k += 1;
    }
    false
}

// ---------------------------------------------------------------------------
// Loading
// ---------------------------------------------------------------------------

/// A line is skipped when it begins with `#` or holds only whitespace.
pub open spec fn all_ws_line(l: Seq<char>) -> bool {
    forall|k: int| 0 <= k < l.len() ==> is_ws(#[trigger] l[k])
}

pub open spec fn skip_line(l: Seq<char>) -> bool {
    (l.len() > 0 && l[0] == '#') || all_ws_line(l)
}

/// Close the rule under construction, if any: a rule with no patterns is
/// an error, otherwise it is appended.
pub open spec fn finish_rules(acc: Seq<SpecRule>, cur: Option<SpecRule>) -> Result<
    Seq<SpecRule>,
    RuleError,
> {
    match cur {
        None => Ok(acc),
        Some(r) => if r.patterns.len() == 0 {
            Err(RuleError::RuleWithoutPatterns)
        } else {
            Ok(acc.push(r))
        },
    }
}

/// Processes the rule text line by line from position `i`, with `acc` the
/// finished rules and `cur` the rule whose pattern lines are being read.
pub open spec fn spec_load_from(
    s: Seq<char>,
    i: int,
    acc: Seq<SpecRule>,
    cur: Option<SpecRule>,
) -> Result<Seq<SpecRule>, RuleError>
    decreases s.len() - i,
{
    if !(0 <= i < s.len()) {
        finish_rules(acc, cur)
    } else {
        proof {
            lemma_next_newline(s, i);
        }
        let e = next_newline(s, i);
        let line = s.subrange(i, e);
        let next = if e < s.len() { e + 1 } else { e };
        if skip_line(line) {
            spec_load_from(s, next, acc, cur)
        } else if is_ws(line[0]) {
            match cur {
                None => Err(RuleError::PatternBeforeName),
                Some(r) => {
                    let p = spec_lex(line);
                    if has_trailing_run_wildcard(p) {
                        Err(RuleError::RunWildcardAtEnd)
                    } else if has_run_wildcard_before_wildcard(p) {
                        Err(RuleError::RunWildcardBeforeWildcard)
                    } else {
                        spec_load_from(s, next, acc,
                            Some(SpecRule { name: r.name, patterns: r.patterns.push(p) }))
                    }
                },
            }
        } else {
            let name = if e < s.len() && i < e && s[e - 1] == '\r' {
                s.subrange(i, e - 1)
            } else {
                line
            };
            match cur {
                None => spec_load_from(s, next, acc,
                    Some(SpecRule { name, patterns: Seq::<Seq<SpecToken>>::empty() })),
                Some(r) => {
                    if r.patterns.len() == 0 {
                        Err(RuleError::RuleWithoutPatterns)
                    } else {
                        spec_load_from(s, next, acc.push(r),
                            Some(SpecRule { name, patterns: Seq::<Seq<SpecToken>>::empty() }))
                    }
                },
            }
        }
    }
}

pub open spec fn spec_load(s: Seq<char>) -> Result<Seq<SpecRule>, RuleError> {
    spec_load_from(s, 0, Seq::<SpecRule>::empty(), None)
}

spec fn opt_rule_view(c: Option<Rule>) -> Option<SpecRule> {
    match c {
        Some(r) => Some(r@),
        None => None,
    }
}

spec fn opt_rule_wf(c: Option<SpecRule>) -> bool {
    match c {
        Some(r) => wf_rule(r),
        None => true,
    }
}

fn all_ws_range(v: &Vec<char>, i: usize, e: usize) -> (r: bool)
    requires
        i <= e <= v@.len(),
    ensures
        r == all_ws_line(v@.subrange(i as int, e as int)),
{
    let mut m: usize = i;
    while m < e
        invariant
            i <= m <= e,
            e <= v@.len(),
            forall|x: int| i <= x < m ==> is_ws(#[trigger] v@[x]),
        decreases e - m,
    {
        if !ws_char(v[m]) {
            proof {
                assert(v@.subrange(i as int, e as int)[m - i] == v@[m as int]);
            }
            return false;
        }
        m += 1;
    }
    proof {
        assert forall|k: int| 0 <= k < e - i implies is_ws(
            #[trigger] v@.subrange(i as int, e as int)[k]) by {
            assert(v@.subrange(i as int, e as int)[k] == v@[i + k]);
        }
    }
    true
}

/// Produce the rule set described by the given rule definition text, or
/// the first definition error found, reading lines in order.
pub fn load_rules(text: &str) -> (r: Result<RuleSet, RuleError>)
    requires
        text@.len() < usize::MAX,
    ensures
        match r {
            Ok(rs) => spec_load(text@) == Ok::<Seq<SpecRule>, RuleError>(rs@)
                && wf_rules(rs@),
            Err(e) => spec_load(text@) == Err::<Seq<SpecRule>, RuleError>(e),
        },
{
    let v = chars_of(text);
    let n: usize = v.len();
    let mut acc: Vec<Rule> = Vec::new();
    let mut cur: Option<Rule> = None;
    let mut p: usize = 0;
    proof {
        assert(acc@.map_values(|r: Rule| r@) =~= Seq::<SpecRule>::empty());
    }
    while p < n
        invariant
            v@ == text@,
            n == v@.len(),
            n < usize::MAX,
            p <= n,
            spec_load(text@) == spec_load_from(text@, p as int, acc@.map_values(|r: Rule| r@),
                opt_rule_view(cur)),
            wf_rules(acc@.map_values(|r: Rule| r@)),
            opt_rule_wf(opt_rule_view(cur)),
        decreases n - p,
    {
        let e: usize = next_newline_at(&v, p);
        let ghost line = text@.subrange(p as int, e as int);
        proof {
            lemma_next_newline(text@, p as int);
        }
        let starts_hash: bool = p < e && v[p] == '#';
        let is_blank: bool = if starts_hash { false } else { all_ws_range(&v, p, e) };
        if starts_hash || is_blank {
            proof {
                assert(skip_line(line));
            }
        } else if ws_char(v[p]) {
            proof {
                assert(line.len() > 0);
                assert(line[0] == text@[p as int]);
                assert(!skip_line(line));
            }
            if cur.is_none() {
                return Err(RuleError::PatternBeforeName);
            }
            let line_str = text.substring_char(p, e);
            let pat = lex(line_str);
            proof {
                assert(token_views(pat@) == spec_lex(line));
            }
            if pattern_has_trailing_run(&pat) {
                return Err(RuleError::RunWildcardAtEnd);
            }
            if pattern_has_run_before_wildcard(&pat) {
                return Err(RuleError::RunWildcardBeforeWildcard);
            }
            let ghost prev_cur = opt_rule_view(cur);
            cur = match cur {
                Some(mut rl) => {
                    rl.patterns.push(pat);
                    Some(rl)
                },
                None => None,
            };
            proof {
                let r0 = prev_cur->0;
                assert(opt_rule_view(cur)->0 =~= SpecRule {
                    name: r0.name,
                    patterns: r0.patterns.push(spec_lex(line)),
                });
                assert(wf_pattern(spec_lex(line)));
                assert(opt_rule_wf(opt_rule_view(cur)));
            }
        } else {
            proof {
                assert(line.len() > 0);
                assert(line[0] == text@[p as int]);
                assert(!skip_line(line));
                assert(!is_ws(line[0]));
            }
            let ghost prev_acc = acc@.map_values(|r: Rule| r@);
            match cur {
                Some(rl) => {
                    if rl.patterns.len() == 0 {
                        return Err(RuleError::RuleWithoutPatterns);
                    }
                    acc.push(rl);
                    proof {
                        assert(acc@.map_values(|r: Rule| r@)
                            =~= prev_acc.push(acc@[acc@.len() - 1]@));
                    }
                },
                None => {},
            }
            let name_end: usize = if e < n && p < e && v[e - 1] == '\r' {
                e - 1
            } else {
                e
            };
            let name = text.substring_char(p, name_end).to_owned();
            cur = Some(Rule { name, patterns: Vec::new() });
            proof {
                assert(opt_rule_view(cur)->0.patterns
                    =~= Seq::<Seq<SpecToken>>::empty());
            }
        }
        p = if e < n { e + 1 } else { e };
    }
    match cur {
        Some(rl) => {
            if rl.patterns.len() == 0 {
                return Err(RuleError::RuleWithoutPatterns);
            }
            let ghost prev_acc = acc@.map_values(|r: Rule| r@);
            acc.push(rl);
            proof {
                assert(acc@.map_values(|r: Rule| r@)
                    =~= prev_acc.push(acc@[acc@.len() - 1]@));
            }
            Ok(RuleSet { rules: acc })
        },
        None => Ok(RuleSet { rules: acc }),
    }
}

} // verus!
