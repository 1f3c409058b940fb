//! The pattern matcher.
//!
//! A pattern is a token sequence produced by the tokenizer. Three token
//! values are reserved wildcards: `_` matches one token whose text begins
//! with a letter or underscore, `__` matches any one token, and `___`
//! matches the shortest run of tokens up to (not including) the next
//! pattern token's value, its anchor. Every other pattern token must be
//! matched by a token with exactly the same text. `check_match` tries one
//! pattern at the head of a token window; `find_matches` tries every rule's
//! every pattern at every starting offset except the last token's.

use vstd::prelude::*;
use vstd::slice::slice_index_get;
use vstd::slice::slice_subrange;
use crate::lexer::SpecToken;
use crate::lexer::Token;
use crate::lexer::ident_start_char;
use crate::lexer::is_ident_start;
use crate::lexer::token_views;
use crate::lexer::wf_tokens;
use crate::rules::RuleSet;
use crate::rules::SpecRule;
use crate::rules::wf_rules;

verus! {

// ---------------------------------------------------------------------------
// Wildcards
// ---------------------------------------------------------------------------

pub open spec fn all_underscores(v: Seq<char>, n: nat) -> bool {
    v.len() == n && forall|k: int| 0 <= k < v.len() ==> #[trigger] v[k] == '_'
}

/// A pattern is well formed when no `___` stands last: the run wildcard
/// needs the following pattern token as its anchor.
pub open spec fn wf_pattern(p: Seq<SpecToken>) -> bool {
    forall|k: int|
        0 <= k < p.len() && all_underscores((#[trigger] p[k]).value, 3) ==> k + 1 < p.len()
}

/// Whether the string is exactly `n` underscores.
pub(crate) fn underscores(vl: &String, n: usize) -> (r: bool)
    ensures
        r == all_underscores(vl@, n as nat),
{
    let s = vl.as_str();
    if s.unicode_len() != n {
        return false;
    }
    let mut k: usize = 0;
    while k < n
        invariant
            n == s@.len(),
            s@ == vl@,
            k <= n,
            forall|m: int| 0 <= m < k ==> #[trigger] vl@[m] == '_',
        decreases n - k,
    {
        if s.get_char(k) != '_' {
            return false;
        }
        k += 1;
    }
    true
}

// ---------------------------------------------------------------------------
// Matching one pattern against the head of a window
// ---------------------------------------------------------------------------

/// First position at or after `i` whose token's text equals `anchor`.
pub open spec fn scan_anchor(tokens: Seq<SpecToken>, i: int, anchor: Seq<char>) -> Option<int>
    decreases tokens.len() - i,
{
    if !(0 <= i < tokens.len()) {
        None
    } else if tokens[i].value == anchor {
        Some(i)
    } else {
        scan_anchor(tokens, i + 1, anchor)
    }
}

/// One deterministic forward scan of the pattern from index `pi` against
/// the window from cursor `ti`. On success the result is the final cursor:
/// the length of the matched head of the window.
pub open spec fn spec_check_from(
    tokens: Seq<SpecToken>,
    pattern: Seq<SpecToken>,
    pi: int,
    ti: int,
) -> Option<int>
    decreases pattern.len() - pi,
{
    if !(0 <= pi < pattern.len()) {
        Some(ti)
    } else {
        let pv = pattern[pi].value;
        if all_underscores(pv, 1) {
            if 0 <= ti < tokens.len() && tokens[ti].value.len() > 0
                && is_ident_start(tokens[ti].value[0]) {
                spec_check_from(tokens, pattern, pi + 1, ti + 1)
            } else {
                None
            }
        } else if all_underscores(pv, 2) {
            if 0 <= ti < tokens.len() {
                spec_check_from(tokens, pattern, pi + 1, ti + 1)
            } else {
                None
            }
        } else if all_underscores(pv, 3) {
            if pi + 1 < pattern.len() {
                match scan_anchor(tokens, ti, pattern[pi + 1].value) {
                    Some(j) => spec_check_from(tokens, pattern, pi + 1, j),
                    None => None,
                }
            } else {
                None
            }
        } else {
            if 0 <= ti < tokens.len() && tokens[ti].value == pv {
                spec_check_from(tokens, pattern, pi + 1, ti + 1)
            } else {
                None
            }
        }
    }
}

pub open spec fn spec_check(tokens: Seq<SpecToken>, pattern: Seq<SpecToken>) -> Option<int> {
    spec_check_from(tokens, pattern, 0, 0)
}

fn find_anchor(tokens: &[Token], from: usize, anchor: &Token) -> (r: Option<usize>)
    requires
        from <= tokens@.len(),
    ensures
        match r {
            Some(j) => scan_anchor(token_views(tokens@), from as int, anchor@.value)
                == Some(j as int) && from <= j < tokens@.len(),
            None => scan_anchor(token_views(tokens@), from as int, anchor@.value) is None,
        },
{
    let n: usize = tokens.len();
    let mut j: usize = from;
    loop
        invariant
            from <= j <= n,
            n == tokens@.len(),
            scan_anchor(token_views(tokens@), from as int, anchor@.value)
                == scan_anchor(token_views(tokens@), j as int, anchor@.value),
        decreases n - j,
    {
        if j >= n {
            return None;
        }
        let t = slice_index_get(tokens, j);
        if t.value == anchor.value {
            return Some(j);
        }
        j += 1;
    }
}

/// Checks whether the head of `tokens` matches `pattern`. Returns the
/// matched portion: the minimal head satisfying every pattern token.
pub fn check_match<'a>(tokens: &'a [Token], pattern: &[Token]) -> (r: Option<&'a [Token]>)
    requires
        wf_tokens(token_views(tokens@)),
        wf_pattern(token_views(pattern@)),
    ensures
        match r {
            Some(m) => spec_check(token_views(tokens@), token_views(pattern@))
                == Some(m@.len() as int) && m@.len() <= tokens@.len()
                && m@ == tokens@.subrange(0, m@.len() as int),
            None => spec_check(token_views(tokens@), token_views(pattern@)) is None,
        },
{
    let n: usize = tokens.len();
    let np: usize = pattern.len();
    let mut index: usize = 0;
    let mut pi: usize = 0;
    while pi < np
        invariant
            index <= n,
            pi <= np,
            n == tokens@.len(),
            np == pattern@.len(),
            wf_tokens(token_views(tokens@)),
            wf_pattern(token_views(pattern@)),
            spec_check(token_views(tokens@), token_views(pattern@))
                == spec_check_from(token_views(tokens@), token_views(pattern@),
                    pi as int, index as int),
        decreases np - pi,
    {
        let expected = slice_index_get(pattern, pi);
        proof {
            assert(token_views(pattern@)[pi as int] == pattern@[pi as int]@);
        }
        if underscores(&expected.value, 1) {
            if index >= n {
                return None;
            }
            let t = slice_index_get(tokens, index);
            proof {
                assert(token_views(tokens@)[index as int] == tokens@[index as int]@);
            }
            let c = t.value.as_str().get_char(0);
            if !ident_start_char(c) {
                return None;
            }
            index += 1;
        } else if underscores(&expected.value, 2) {
            if index >= n {
                return None;
            }
            index += 1;
        } else if underscores(&expected.value, 3) {
            proof {
                assert(all_underscores(token_views(pattern@)[pi as int].value, 3));
            }
            let anchor = slice_index_get(pattern, pi + 1);
            proof {
                assert(token_views(pattern@)[pi as int + 1] == pattern@[pi as int + 1]@);
            }
            match find_anchor(tokens, index, anchor) {
                Some(j) => {
                    index = j;
                },
                None => {
                    return None;
                },
            }
        } else {
            if index >= n {
                return None;
            }
            let t = slice_index_get(tokens, index);
            proof {
                assert(token_views(tokens@)[index as int] == tokens@[index as int]@);
            }
            if !(t.value == expected.value) {
                return None;
            }
            index += 1;
        }
        pi += 1;
    }
    let m = slice_subrange(tokens, 0, index);
    Some(m)
}

// ---------------------------------------------------------------------------
// Collecting every match of every rule at every offset
// ---------------------------------------------------------------------------

/// The mathematical content of a reported match: the rule's name and the
/// exact slice of the input that satisfied one of its patterns.
#[verifier::ext_equal]
pub ghost struct SpecWarning {
    pub name: Seq<char>,
    pub tokens: Seq<SpecToken>,
}

/// A reported match: the name of the rule that fired and the matched
/// portion of the input token stream.
pub struct Warning<'a> {
    pub description: String,
    pub tokens: &'a [Token],
}

impl<'a> View for Warning<'a> {
    type V = SpecWarning;

    open spec fn view(&self) -> SpecWarning {
        SpecWarning { name: self.description@, tokens: token_views(self.tokens@) }
    }
}

pub open spec fn warning_views<'a>(ws: Seq<Warning<'a>>) -> Seq<SpecWarning> {
    ws.map_values(|w: Warning<'a>| w@)
}

/// Warnings from trying, in declaration order from index `q` on, each
/// pattern of one rule at the head of `window`.
pub open spec fn pattern_warnings(
    window: Seq<SpecToken>,
    name: Seq<char>,
    pats: Seq<Seq<SpecToken>>,
    q: int,
) -> Seq<SpecWarning>
    decreases pats.len() - q,
{
    if !(0 <= q < pats.len()) {
        Seq::<SpecWarning>::empty()
    } else {
        let rest = pattern_warnings(window, name, pats, q + 1);
        match spec_check(window, pats[q]) {
            Some(m) => seq![SpecWarning { name: name, tokens: window.subrange(0, m) }] + rest,
            None => rest,
        }
    }
}

/// Warnings from trying, in load order from index `k` on, each rule at the
/// head of `window`.
pub open spec fn rule_warnings(window: Seq<SpecToken>, rules: Seq<SpecRule>, k: int) -> Seq<
    SpecWarning,
>
    decreases rules.len() - k,
{
    if !(0 <= k < rules.len()) {
        Seq::<SpecWarning>::empty()
    } else {
        pattern_warnings(window, rules[k].name, rules[k].patterns, 0)
            + rule_warnings(window, rules, k + 1)
    }
}

/// All matches from offset `i` on: offsets ascend, and the final token is
/// never a starting offset.
pub open spec fn spec_find_from(tokens: Seq<SpecToken>, rules: Seq<SpecRule>, i: int) -> Seq<
    SpecWarning,
>
    decreases tokens.len() - i,
{
    if !(0 <= i && i + 1 < tokens.len()) {
        Seq::<SpecWarning>::empty()
    } else {
        rule_warnings(tokens.subrange(i, tokens.len() as int), rules, 0)
            + spec_find_from(tokens, rules, i + 1)
    }
}

pub open spec fn spec_find(tokens: Seq<SpecToken>, rules: Seq<SpecRule>) -> Seq<SpecWarning> {
    spec_find_from(tokens, rules, 0)
}

proof fn lemma_seq_assoc<A>(a: Seq<A>, b: Seq<A>, c: Seq<A>)
    ensures
        (a + b) + c == a + (b + c),
{
    assert((a + b) + c =~= a + (b + c));
}

/// Collects every match: for each starting offset but the last token's,
/// each rule's each pattern is tried against the window beginning there.
/// Result order is offset first, then rule load order, then pattern
/// declaration order.
pub fn find_matches<'a>(tokens: &'a [Token], rules: &RuleSet) -> (r: Vec<Warning<'a>>)
    requires
        wf_tokens(token_views(tokens@)),
        wf_rules(rules@),
    ensures
        warning_views(r@) == spec_find(token_views(tokens@), rules@),
{
    let n: usize = tokens.len();
    let mut out: Vec<Warning<'a>> = Vec::new();
    let mut i: usize = 0;
    while i + 1 < n
        invariant
            i <= n,
            i == 0 || i + 1 <= n,
            n == tokens@.len(),
            wf_tokens(token_views(tokens@)),
            wf_rules(rules@),
            spec_find(token_views(tokens@), rules@)
                == warning_views(out@) + spec_find_from(token_views(tokens@), rules@, i as int),
        decreases n - i,
    {
        let window = slice_subrange(tokens, i, n);
        proof {
            assert(token_views(window@)
                =~= token_views(tokens@).subrange(i as int, n as int));
            assert(wf_tokens(token_views(window@)));
            lemma_seq_assoc(
                warning_views(out@),
                rule_warnings(token_views(window@), rules@, 0),
                spec_find_from(token_views(tokens@), rules@, i as int + 1),
            );
        }
        let nrules: usize = rules.rules.len();
        let mut k: usize = 0;
        while k < nrules
            invariant
                k <= nrules,
                i + 1 < n,
                n == tokens@.len(),
                nrules == rules@.len(),
                window@ == tokens@.subrange(i as int, n as int),
                token_views(window@) == token_views(tokens@).subrange(i as int, n as int),
                wf_tokens(token_views(window@)),
                wf_tokens(token_views(tokens@)),
                wf_rules(rules@),
                spec_find(token_views(tokens@), rules@)
                    == warning_views(out@)
                        + rule_warnings(token_views(window@), rules@, k as int)
                        + spec_find_from(token_views(tokens@), rules@, i as int + 1),
            decreases nrules - k,
        {
            let rule = &rules.rules[k];
            proof {
                assert(rules@[k as int] == rules.rules@[k as int]@);
                lemma_seq_assoc(
                    warning_views(out@),
                    pattern_warnings(token_views(window@), rules@[k as int].name,
                        rules@[k as int].patterns, 0),
                    rule_warnings(token_views(window@), rules@, k as int + 1)
                        + spec_find_from(token_views(tokens@), rules@, i as int + 1),
                );
                lemma_seq_assoc(
                    warning_views(out@)
                        + pattern_warnings(token_views(window@), rules@[k as int].name,
                            rules@[k as int].patterns, 0),
                    rule_warnings(token_views(window@), rules@, k as int + 1),
                    spec_find_from(token_views(tokens@), rules@, i as int + 1),
                );
            }
            let npats: usize = rule.patterns.len();
            let mut q: usize = 0;
            while q < npats
                invariant
                    q <= npats,
                    i + 1 < n,
                    k < nrules,
                    n == tokens@.len(),
                    nrules == rules@.len(),
                    npats == rules@[k as int].patterns.len(),
                    rule == &rules.rules@[k as int],
                    rules@[k as int] == rules.rules@[k as int]@,
                    window@ == tokens@.subrange(i as int, n as int),
                    token_views(window@) == token_views(tokens@).subrange(i as int, n as int),
                    wf_tokens(token_views(window@)),
                    wf_tokens(token_views(tokens@)),
                    wf_rules(rules@),
                    spec_find(token_views(tokens@), rules@)
                        == warning_views(out@)
                            + pattern_warnings(token_views(window@), rules@[k as int].name,
                                rules@[k as int].patterns, q as int)
                            + rule_warnings(token_views(window@), rules@, k as int + 1)
                            + spec_find_from(token_views(tokens@), rules@, i as int + 1),
                decreases npats - q,
            {
                let pattern = &rule.patterns[q];
                proof {
                    assert(rules@[k as int].patterns[q as int]
                        == token_views(rule.patterns@[q as int]@));
                    assert(wf_pattern(rules@[k as int].patterns[q as int]));
                }
                let res = check_match(window, pattern.as_slice());
                match res {
                    Some(m) => {
                        let ghost prev = out@;
                        let w = Warning { description: rule.name.clone(), tokens: m };
                        out.push(w);
                        proof {
                            let wv = token_views(window@);
                            let nm = rules@[k as int].name;
                            let ps = rules@[k as int].patterns;
                            let l = m@.len() as int;
                            assert(token_views(m@) =~= wv.subrange(0, l));
                            let sw = SpecWarning { name: nm, tokens: wv.subrange(0, l) };
                            assert(out@[out@.len() - 1]@ =~= sw);
                            assert(warning_views(out@) =~= warning_views(prev) + seq![sw]);
                            assert(pattern_warnings(wv, nm, ps, q as int)
                                == seq![sw] + pattern_warnings(wv, nm, ps, q as int + 1));
                            assert(warning_views(prev)
                                + pattern_warnings(wv, nm, ps, q as int)
                                + rule_warnings(wv, rules@, k as int + 1)
                                + spec_find_from(token_views(tokens@), rules@, i as int + 1)
                                =~= warning_views(out@)
                                    + pattern_warnings(wv, nm, ps, q as int + 1)
                                    + rule_warnings(wv, rules@, k as int + 1)
                                    + spec_find_from(token_views(tokens@), rules@,
                                        i as int + 1));
                        }
                    },
                    None => {
                        proof {
                            assert(pattern_warnings(token_views(window@),
                                rules@[k as int].name, rules@[k as int].patterns, q as int)
                                == pattern_warnings(token_views(window@),
                                    rules@[k as int].name, rules@[k as int].patterns,
                                    q as int + 1));
                        }
                    },
                }
                q += 1;
            }
            proof {
                assert(pattern_warnings(token_views(window@), rules@[k as int].name,
                    rules@[k as int].patterns, npats as int)
                    == Seq::<SpecWarning>::empty());
                assert(warning_views(out@)
                    + pattern_warnings(token_views(window@), rules@[k as int].name,
                        rules@[k as int].patterns, npats as int)
                    + rule_warnings(token_views(window@), rules@, k as int + 1)
                    + spec_find_from(token_views(tokens@), rules@, i as int + 1)
                    =~= warning_views(out@)
                        + rule_warnings(token_views(window@), rules@, k as int + 1)
                        + spec_find_from(token_views(tokens@), rules@, i as int + 1));
            }
            k += 1;
        }
        proof {
            assert(rule_warnings(token_views(window@), rules@, nrules as int)
                == Seq::<SpecWarning>::empty());
            assert(warning_views(out@)
                + rule_warnings(token_views(window@), rules@, nrules as int)
                + spec_find_from(token_views(tokens@), rules@, i as int + 1)
                =~= warning_views(out@)
                    + spec_find_from(token_views(tokens@), rules@, i as int + 1));
        }
        i += 1;
    }
    proof {
        assert(spec_find_from(token_views(tokens@), rules@, i as int)
            == Seq::<SpecWarning>::empty());
        assert(warning_views(out@) + Seq::<SpecWarning>::empty() =~= warning_views(out@));
    }
    out
}

// ---------------------------------------------------------------------------
// Laws
// ---------------------------------------------------------------------------

/// Over any token stream, a rule set with no rules yields no matches.
pub proof fn lemma_find_matches_no_rules(tokens: Seq<SpecToken>)
    ensures
        spec_find(tokens, Seq::<SpecRule>::empty()) == Seq::<SpecWarning>::empty(),
{
    lemma_find_from_no_rules(tokens, 0);
}

proof fn lemma_find_from_no_rules(tokens: Seq<SpecToken>, i: int)
    ensures
        spec_find_from(tokens, Seq::<SpecRule>::empty(), i) == Seq::<SpecWarning>::empty(),
    decreases tokens.len() - i,
{
    if 0 <= i && i + 1 < tokens.len() {
        lemma_find_from_no_rules(tokens, i + 1);
        assert(rule_warnings(tokens.subrange(i, tokens.len() as int),
            Seq::<SpecRule>::empty(), 0) == Seq::<SpecWarning>::empty());
        assert(spec_find_from(tokens, Seq::<SpecRule>::empty(), i)
            =~= Seq::<SpecWarning>::empty());
    }
}

} // verus!
