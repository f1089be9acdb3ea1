use vstd::prelude::*;
use crate::error::SyntaxError;
use crate::lexer::{Token, TokenType, TokenView, token_views};

verus! {

/// The statement forms that the grammar knows.
#[derive(Debug, Clone, Copy, PartialEq, Eq, Structural)]
pub enum RuleType {
    /// `name = "text";`
    VarAssignString,
    /// `name = value;`
    VarAssignNum,
}

/// The tag that a node produced by a rule of this type carries.
pub open spec fn rule_name(rt: RuleType) -> Seq<char> {
    match rt {
        RuleType::VarAssignString => "VarAssignString"@,
        RuleType::VarAssignNum => "VarAssignNum"@,
    }
}

/// Where, within a matched run, a rule of this type finds the `name` child.
pub open spec fn name_position(rt: RuleType) -> int {
    match rt {
        RuleType::VarAssignString => 0,
        RuleType::VarAssignNum => 0,
    }
}

/// Where, within a matched run, a rule of this type finds the `value` child.
pub open spec fn value_position(rt: RuleType) -> int {
    match rt {
        RuleType::VarAssignString => 2,
        RuleType::VarAssignNum => 2,
    }
}

impl RuleType {
    /// The tag of the nodes this rule type produces.
    pub fn name(&self) -> (r: String)
        ensures
            r@ == rule_name(*self),
    {
        match self {
            RuleType::VarAssignString => "VarAssignString".to_owned(),
            RuleType::VarAssignNum => "VarAssignNum".to_owned(),
        }
    }

    /// The positions of the `name` and `value` tokens within a matched run.
    pub fn capture_positions(&self) -> (r: (usize, usize))
        ensures
            r.0 == name_position(*self),
            r.1 == value_position(*self),
    {
        match self {
            RuleType::VarAssignString => (0, 2),
            RuleType::VarAssignNum => (0, 2),
        }
    }
}

/// A grammar rule: a fixed sequence of token kinds that a run of tokens must
/// match position by position.
pub struct Rule {
    pub identifier: RuleType,
    pub sequence: Vec<TokenType>,
}

impl Rule {
    /// A rule is usable when its sequence is non-empty and covers the
    /// positions its type extracts children from.
    pub open spec fn wf(&self) -> bool {
        &&& self.sequence@.len() >= 1
        &&& 0 <= name_position(self.identifier) < self.sequence@.len()
        &&& 0 <= value_position(self.identifier) < self.sequence@.len()
    }

    pub fn new(identifier: RuleType, sequence: Vec<TokenType>) -> (r: Self)
        requires
            sequence@.len() >= 1,
            name_position(identifier) < sequence@.len(),
            value_position(identifier) < sequence@.len(),
        ensures
            r.identifier == identifier,
            r.sequence@ == sequence@,
            r.wf(),
    {
        Self { identifier, sequence }
    }
}

/// One unit of the syntax tree.
#[derive(Debug)]
pub struct Node {
    pub identifier: String,
    pub data: String,
    pub children: Vec<Node>,
}

/// The kinds of a token sequence.
pub open spec fn kinds(ts: Seq<TokenView>) -> Seq<TokenType> {
    ts.map_values(|t: TokenView| t.0)
}

/// The sequences of a list of rules.
pub open spec fn rule_seqs(rules: Seq<Rule>) -> Seq<Seq<TokenType>> {
    rules.map_values(|r: Rule| r.sequence@)
}

/// How far, counting from `k`, the kinds from `pos` on agree with `seq`:
/// the length of the longest prefix of `seq` that matches.
pub open spec fn prefix_len(ks: Seq<TokenType>, pos: int, seq: Seq<TokenType>, k: int) -> int
    decreases seq.len() - k,
{
    if 0 <= k < seq.len() && 0 <= pos + k < ks.len() && ks[pos + k] == seq[k] {
        prefix_len(ks, pos, seq, k + 1)
    } else {
        k
    }
}

/// Whether `seq` matches the kinds from `pos` on in full.
pub open spec fn matches_at(ks: Seq<TokenType>, pos: int, seq: Seq<TokenType>) -> bool {
    seq.len() >= 1 && prefix_len(ks, pos, seq, 0) == seq.len()
}

/// The first rule, from index `r` on, that matches at `pos`.
pub open spec fn first_match(ks: Seq<TokenType>, pos: int, rules: Seq<Seq<TokenType>>, r: int) -> Option<int>
    decreases rules.len() - r,
{
    if r < 0 || r >= rules.len() {
        None
    } else if matches_at(ks, pos, rules[r]) {
        Some(r)
    } else {
        first_match(ks, pos, rules, r + 1)
    }
}

/// The longest matching prefix among the rules from index `r` on.
pub open spec fn furthest(ks: Seq<TokenType>, pos: int, rules: Seq<Seq<TokenType>>, r: int) -> int
    decreases rules.len() - r,
{
    if r < 0 || r >= rules.len() {
        0
    } else {
        let here = prefix_len(ks, pos, rules[r], 0);
        let rest = furthest(ks, pos, rules, r + 1);
        if here >= rest {
            here
        } else {
            rest
        }
    }
}

/// The matches found from cursor `pos` on, after those in `acc`: each is a
/// rule index and the position its run starts at. `Err(p)` means that no
/// rule matches at some cursor, `p` being the furthest token any rule reached.
pub open spec fn parse_from(
    ks: Seq<TokenType>,
    rules: Seq<Seq<TokenType>>,
    pos: int,
    acc: Seq<(int, int)>,
) -> Result<Seq<(int, int)>, int>
    decreases ks.len() - pos,
{
    if pos >= ks.len() {
        Ok(acc)
    } else {
        match first_match(ks, pos, rules, 0) {
            None => Err(pos + furthest(ks, pos, rules, 0)),
            Some(r) => {
                let next = pos + rules[r].len();
                if pos < next <= ks.len() {
                    parse_from(ks, rules, next, acc.push((r, pos)))
                } else {
                    Err(pos)
                }
            },
        }
    }
}

/// The matches of a whole token sequence.
pub open spec fn parse_all(ks: Seq<TokenType>, rules: Seq<Seq<TokenType>>) -> Result<Seq<(int, int)>, int> {
    parse_from(ks, rules, 0, seq![])
}

/// `n` is a leaf tagged `id` holding `data`.
pub open spec fn is_leaf(n: Node, id: Seq<char>, data: Seq<char>) -> bool {
    n.identifier@ == id && n.data@ == data && n.children@.len() == 0
}

/// `n` is the node that a rule of type `rt` yields for the run of `toks`
/// that starts at `pos`.
pub open spec fn is_rule_node(n: Node, rt: RuleType, toks: Seq<TokenView>, pos: int) -> bool {
    &&& n.identifier@ == rule_name(rt)
    &&& n.data@.len() == 0
    &&& n.children@.len() == 2
    &&& is_leaf(n.children@[0], "name"@, toks[pos + name_position(rt)].1)
    &&& is_leaf(n.children@[1], "value"@, toks[pos + value_position(rt)].1)
}

/// `nodes` are the nodes of the matches `ms` over `toks`.
pub open spec fn nodes_of(nodes: Seq<Node>, ms: Seq<(int, int)>, rules: Seq<Rule>, toks: Seq<TokenView>) -> bool {
    &&& nodes.len() == ms.len()
    &&& forall|k: int|
        0 <= k < ms.len() ==> is_rule_node(
            #[trigger] nodes[k],
            rules[ms[k].0].identifier,
            toks,
            ms[k].1,
        )
}

proof fn lemma_prefix_len_bounds(ks: Seq<TokenType>, pos: int, seq: Seq<TokenType>, k: int)
    requires
        0 <= k <= seq.len(),
        0 <= pos,
        pos + k <= ks.len(),
    ensures
        k <= prefix_len(ks, pos, seq, k) <= seq.len(),
        pos + prefix_len(ks, pos, seq, k) <= ks.len(),
    decreases seq.len() - k,
{
    if 0 <= k < seq.len() && 0 <= pos + k < ks.len() && ks[pos + k] == seq[k] {
        lemma_prefix_len_bounds(ks, pos, seq, k + 1);
    }
}

proof fn lemma_furthest_bounds(ks: Seq<TokenType>, pos: int, rules: Seq<Seq<TokenType>>, r: int)
    requires
        0 <= r,
        0 <= pos <= ks.len(),
    ensures
        0 <= furthest(ks, pos, rules, r),
        pos + furthest(ks, pos, rules, r) <= ks.len(),
    decreases rules.len() - r,
{
    if r < rules.len() {
        lemma_prefix_len_bounds(ks, pos, rules[r], 0);
        lemma_furthest_bounds(ks, pos, rules, r + 1);
    }
}

/// The length of the longest prefix of `seq` that the kinds of `tokens`
/// from `pos` on match.
fn matched_prefix_len(tokens: &Vec<Token>, pos: usize, seq: &Vec<TokenType>) -> (k: usize)
    requires
        pos <= tokens@.len(),
    ensures
        k == prefix_len(kinds(token_views(tokens@)), pos as int, seq@, 0),
        k <= seq@.len(),
        pos + k <= tokens@.len(),
{
    let ghost ks = kinds(token_views(tokens@));
    proof {
        lemma_prefix_len_bounds(ks, pos as int, seq@, 0);
    }
    let mut k: usize = 0;
    while k < seq.len() && k < tokens.len() - pos && tokens[pos + k].token_type == seq[k]
        invariant
            pos <= tokens@.len(),
            ks == kinds(token_views(tokens@)),
            k <= seq@.len(),
            pos + k <= tokens@.len(),
            prefix_len(ks, pos as int, seq@, k as int) == prefix_len(ks, pos as int, seq@, 0),
        decreases seq@.len() - k,
    {
        k = k + 1;
    }
    k
}

/// The node that `rule` yields for the run of `tokens` starting at `pos`.
fn build_node(rule: &Rule, tokens: &Vec<Token>, pos: usize) -> (n: Node)
    requires
        rule.wf(),
        pos + rule.sequence@.len() <= tokens@.len(),
    ensures
        is_rule_node(n, rule.identifier, token_views(tokens@), pos as int),
{
    let (name_at, value_at) = rule.identifier.capture_positions();
    assert(pos + value_at < tokens.len());
    let name = Node {
        identifier: "name".to_owned(),
        data: tokens[pos + name_at].content.clone(),
        children: Vec::new(),
    };
    let value = Node {
        identifier: "value".to_owned(),
        data: tokens[pos + value_at].content.clone(),
        children: Vec::new(),
    };
    let mut children: Vec<Node> = Vec::new();
    children.push(name);
    children.push(value);
    Node { identifier: rule.identifier.name(), data: String::new(), children }
}

/// A rule matcher over a fixed, ordered list of grammar rules.
pub struct Parser {
    pub rules: Vec<Rule>,
}

impl Parser {
    /// Every rule is usable.
    pub open spec fn wf(&self) -> bool {
        forall|i: int| 0 <= i < self.rules@.len() ==> #[trigger] self.rules@[i].wf()
    }

    pub fn new(rules: Vec<Rule>) -> (r: Self)
        requires
            forall|i: int| 0 <= i < rules@.len() ==> #[trigger] rules@[i].wf(),
        ensures
            r.rules@ == rules@,
            r.wf(),
    {
        Self { rules }
    }
    /// Groups `tokens` into syntax nodes. At each cursor the rules are tried
    /// in order and the first that matches in full wins; the cursor then moves
    /// past the matched run. When no rule matches, parsing stops with
    /// `UnmatchedTokens` at the furthest token any rule reached.
    pub fn parse(&self, tokens: Vec<Token>) -> (r: Result<Vec<Node>, SyntaxError>)
        requires
            self.wf(),
        ensures
            match parse_all(kinds(token_views(tokens@)), rule_seqs(self.rules@)) {
                Ok(ms) => r is Ok && nodes_of(r->Ok_0@, ms, self.rules@, token_views(tokens@)),
                Err(p) => r == Err::<Vec<Node>, SyntaxError>(SyntaxError::UnmatchedTokens(p as usize)),
            },
    {
        let ghost toks = token_views(tokens@);
        let ghost ks = kinds(toks);
        let ghost rs = rule_seqs(self.rules@);
        let ghost total = parse_all(ks, rs);
        let mut pos: usize = 0;
        let mut nodes: Vec<Node> = Vec::new();
        let ghost mut ms: Seq<(int, int)> = seq![];
        while pos < tokens.len()
            invariant
                self.wf(),
                toks == token_views(tokens@),
                ks == kinds(toks),
                rs == rule_seqs(self.rules@),
                total == parse_all(ks, rs),
                pos <= tokens@.len(),
                parse_from(ks, rs, pos as int, ms) == total,
                nodes_of(nodes@, ms, self.rules@, toks),
            decreases tokens@.len() - pos,
        {
            let mut r: usize = 0;
            let mut best: usize = 0;
            let mut found: Option<usize> = None;
            proof {
                lemma_furthest_bounds(ks, pos as int, rs, 0);
            }
            while found.is_none() && r < self.rules.len()
                invariant
                    self.wf(),
                    toks == token_views(tokens@),
                    ks == kinds(toks),
                    rs == rule_seqs(self.rules@),
                    pos < tokens@.len(),
                    r <= self.rules@.len(),
                    pos + best <= tokens@.len(),
                    found is None ==> first_match(ks, pos as int, rs, 0) == first_match(
                        ks,
                        pos as int,
                        rs,
                        r as int,
                    ),
                    found is None ==> furthest(ks, pos as int, rs, 0) == (if best >= furthest(
                        ks,
                        pos as int,
                        rs,
                        r as int,
                    ) {
                        best as int
                    } else {
                        furthest(ks, pos as int, rs, r as int)
                    }),
                    found matches Some(f) ==> {
                        &&& f < self.rules@.len()
                        &&& first_match(ks, pos as int, rs, 0) == Some(f as int)
                        &&& pos + self.rules@[f as int].sequence@.len() <= tokens@.len()
                    },
                decreases self.rules@.len() - r,
            {
                let len = matched_prefix_len(&tokens, pos, &self.rules[r].sequence);
                assert(rs[r as int] == self.rules@[r as int].sequence@);
                assert(self.rules@[r as int].wf());
                if len == self.rules[r].sequence.len() {
                    found = Some(r);
                } else if len > best {
                    best = len;
                }
                r = r + 1;
            }
            match found {
                None => {
                    assert(furthest(ks, pos as int, rs, r as int) == 0);
                    return Err(SyntaxError::UnmatchedTokens(pos + best));
                },
                Some(f) => {
                    let rule = &self.rules[f];
                    assert(rule.wf());
                    assert(rs[f as int] == rule.sequence@);
                    let node = build_node(rule, &tokens, pos);
                    let ghost old_nodes = nodes@;
                    proof {
                        ms = ms.push((f as int, pos as int));
                    }
                    nodes.push(node);
                    assert forall|k: int| 0 <= k < ms.len() implies is_rule_node(
                        #[trigger] nodes@[k],
                        self.rules@[ms[k].0].identifier,
                        toks,
                        ms[k].1,
                    ) by {
                        if k < ms.len() - 1 {
                            assert(nodes@[k] == old_nodes[k]);
                        }
                    }
                    pos = pos + rule.sequence.len();
                },
            }
        }
        Ok(nodes)
    }
}

} // verus!
