//! The rule table compiler: edge types, colors, sets, start and output
//! declarations and transition rules, compiled from their text format into
//! dense id spaces with precomputed dispatch tables for the search.

use vstd::prelude::*;

use crate::array_nd::{Array3D, Array4D};
use crate::expression::{expr_sets_below, expr_valid, eval_expr, Expression};
use crate::instance::Sets;
use crate::reach::State;
use crate::strutil::is_prefix_of;

verus! {

broadcast use
    vstd::seq::axiom_seq_index_decreases,
    vstd::std_specs::vec::axiom_vec_index_decreases,
    vstd::std_specs::vec::axiom_vec_decreases_to_view;

/// Matches one id: a single id, a list of ids, or every id.
#[derive(Clone, Debug)]
pub enum Pattern {
    Single(usize),
    Many(Vec<usize>),
    All,
}

/// Which (edge, color) pairs a pattern admits.
pub open spec fn pattern_matches(p: Pattern, x: usize) -> bool {
    match p {
        Pattern::Single(v) => v == x,
        Pattern::Many(vs) => exists|i: int| 0 <= i < vs@.len() && vs@[i] == x,
        Pattern::All => true,
    }
}

/// The ids a pattern expands to, out of `num` declared ones; the wildcard
/// covers `0..max(1, num)`.
pub open spec fn pattern_vec_spec(p: Pattern, num: usize) -> Seq<usize> {
    match p {
        Pattern::Single(v) => seq![v],
        Pattern::Many(vs) => vs@,
        Pattern::All => Seq::new(if num == 0 { 1nat } else { num as nat }, |i: int| i as usize),
    }
}

/// The ghost shape of a pattern.
pub enum PatternModel {
    Single(usize),
    Many(Seq<usize>),
    All,
}

/// The ghost shape of a pattern value.
pub open spec fn pattern_model(p: Pattern) -> PatternModel {
    match p {
        Pattern::Single(v) => PatternModel::Single(v),
        Pattern::Many(vs) => PatternModel::Many(vs@),
        Pattern::All => PatternModel::All,
    }
}

impl Pattern {
    /// Expands the pattern to the id list it denotes, as `pattern_vec_spec`
    /// says.
    pub fn convert_to_vec(&self, num: usize) -> (r: Vec<usize>)
        ensures
            r@ == pattern_vec_spec(*self, num),
    {
        match self {
            Pattern::Single(p) => {
                let mut r: Vec<usize> = Vec::new();
                r.push(*p);
                proof {
                    assert(r@ =~= pattern_vec_spec(*self, num));
                }
                r
            },
            Pattern::Many(ps) => {
                let mut r: Vec<usize> = Vec::new();
                let mut i: usize = 0;
                while i < ps.len()
                    invariant
                        i <= ps@.len(),
                        r@ == ps@.take(i as int),
                    decreases ps@.len() - i,
                {
                    r.push(ps[i]);
                    proof {
                        assert(r@ =~= ps@.take(i + 1));
                    }
                    i = i + 1;
                }
                proof {
                    assert(ps@.take(ps@.len() as int) =~= ps@);
                }
                r
            },
            Pattern::All => {
                let bound = if num == 0 { 1 } else { num };
                let mut r: Vec<usize> = Vec::new();
                let mut i: usize = 0;
                while i < bound
                    invariant
                        i <= bound,
                        bound == if num == 0 { 1usize } else { num },
                        r@.len() == i,
                        forall|q: int| 0 <= q < i ==> r@[q] == q,
                    decreases bound - i,
                {
                    r.push(i);
                    i = i + 1;
                }
                proof {
                    assert(r@ =~= pattern_vec_spec(*self, num));
                }
                r
            },
        }
    }

    /// Whether the pattern admits id `found`, as `pattern_matches` says.
    #[verifier::loop_isolation(false)]
    pub fn is_matched(&self, found: usize) -> (r: bool)
        ensures
            r == pattern_matches(*self, found),
    {
        match self {
            Pattern::Single(p) => *p == found,
            Pattern::Many(ps) => {
                let mut i: usize = 0;
                while i < ps.len()
                    invariant
                        i <= ps@.len(),
                        forall|q: int| 0 <= q < i ==> ps@[q] != found,
                    decreases ps@.len() - i,
                {
                    if ps[i] == found {
                        proof {
                            assert(exists|q: int| 0 <= q < ps@.len() && ps@[q] == found) by {
                                assert(0 <= (i as int) < ps@.len() && ps@[i as int] == found);
                            }
                            assert(*self == Pattern::Many(*ps));
                            assert(pattern_matches(*self, found));
                        }
                        return true;
                    }
                    i = i + 1;
                }
                false
            },
            Pattern::All => true,
        }
    }
}

/// The transition shape a rule governs: patterns for the previous and next
/// edge type and color.
#[derive(Debug)]
pub struct Case {
    pub prev_edge: Pattern,
    pub prev_color: Pattern,
    pub next_edge: Pattern,
    pub next_color: Pattern,
}

/// Whether a case governs the transition `(e1, c1) -> (e2, c2)`.
pub open spec fn case_matches(c: Case, e1: usize, c1: usize, e2: usize, c2: usize) -> bool {
    pattern_matches(c.prev_edge, e1) && pattern_matches(c.prev_color, c1) && pattern_matches(
        c.next_edge, e2,
    ) && pattern_matches(c.next_color, c2)
}

impl Case {
    /// Whether this case governs the transition from `prev` to `next`, as
    /// `case_matches` says.
    pub fn is_matched(&self, prev: State, next: State) -> (r: bool)
        ensures
            r == case_matches(*self, prev.edge, prev.color, next.edge, next.color),
    {
        self.prev_edge.is_matched(prev.edge) && self.prev_color.is_matched(prev.color)
            && self.next_edge.is_matched(next.edge) && self.next_color.is_matched(next.color)
    }
}

/// One rule: the transition shape it governs and the guard expression.
#[derive(Debug)]
pub struct Rule {
    pub case: Case,
    pub expression: Expression,
}

/// The first rule, in declaration order at or after `i`, whose case governs
/// the transition `(e1, c1) -> (e2, c2)`.
pub open spec fn first_match_from(
    rules: Seq<Rule>, e1: usize, c1: usize, e2: usize, c2: usize, i: int,
) -> Option<int>
    decreases rules.len() - i,
{
    if i < 0 || i >= rules.len() {
        Option::None
    } else if case_matches(rules[i].case, e1, c1, e2, c2) {
        Option::Some(i)
    } else {
        first_match_from(rules, e1, c1, e2, c2, i + 1)
    }
}

/// The first rule governing the transition `(e1, c1) -> (e2, c2)`, if any.
pub open spec fn first_match(rules: Seq<Rule>, e1: usize, c1: usize, e2: usize, c2: usize)
    -> Option<int> {
    first_match_from(rules, e1, c1, e2, c2, 0)
}

/// First-match dispatch is sound and unique: a found rule governs the
/// transition and no earlier rule does; when none is found, no rule governs
/// it at all.
pub proof fn lemma_first_match_properties(
    rules: Seq<Rule>, e1: usize, c1: usize, e2: usize, c2: usize, i: int,
)
    requires
        0 <= i,
    ensures
        match first_match_from(rules, e1, c1, e2, c2, i) {
            Option::Some(j) => i <= j < rules.len() && case_matches(rules[j].case, e1, c1, e2, c2)
                && forall|q: int| i <= q < j ==> !case_matches(#[trigger] rules[q].case, e1, c1, e2, c2),
            Option::None => forall|q: int|
                i <= q < rules.len() ==> !case_matches(#[trigger] rules[q].case, e1, c1, e2, c2),
        },
    decreases rules.len() - i,
{
    if i < rules.len() && !case_matches(rules[i].case, e1, c1, e2, c2) {
        lemma_first_match_properties(rules, e1, c1, e2, c2, i + 1);
    }
}

/// First-match dispatch, read off the compiled table: for every transition
/// shape, the recorded rule number is either the no-match sentinel, and then
/// no rule governs the shape, or the index of a rule that governs it while
/// no earlier-declared rule does.
pub proof fn lemma_dispatch_is_first_match(
    rt: &Ruletable, e1: usize, c1: usize, e2: usize, c2: usize,
)
    requires
        rt.wf(),
        e1 < rt.num_edges_spec(),
        c1 < rt.num_colors_spec(),
        e2 < rt.num_edges_spec(),
        c2 < rt.num_colors_spec(),
    ensures
        ({
            let rules = rt.rules_spec();
            let r = rt.rulenum_spec(e1 as int, c1 as int, e2 as int, c2 as int);
            if r == usize::MAX && !(first_match(rules, e1, c1, e2, c2) is Some) {
                forall|q: int|
                    0 <= q < rules.len() ==> !case_matches(
                        (#[trigger] rules[q]).case, e1, c1, e2, c2,
                    )
            } else {
                &&& (r as int) < rules.len()
                &&& case_matches(rules[r as int].case, e1, c1, e2, c2)
                &&& forall|q: int|
                    0 <= q < r ==> !case_matches((#[trigger] rules[q]).case, e1, c1, e2, c2)
            }
        }),
{
    let rules = rt.rules_spec();
    lemma_first_match_properties(rules, e1, c1, e2, c2, 0);
    assert(rt.rulenum_spec(e1 as int, c1 as int, e2 as int, c2 as int) == match first_match(
        rules, e1, c1, e2, c2,
    ) {
        Option::Some(i) => i as usize,
        Option::None => usize::MAX,
    });
}

/// The colors `c2 < n` for which some rule governs `(e1, c1) -> (e2, c2)`,
/// in ascending order.
pub open spec fn admissible_colors(
    rules: Seq<Rule>, e1: usize, c1: usize, e2: usize, n: int,
) -> Seq<usize>
    decreases n,
{
    if n <= 0 {
        seq![]
    } else {
        admissible_colors(rules, e1, c1, e2, n - 1) + if 0 <= n - 1 <= usize::MAX && first_match(
            rules, e1, c1, e2, #[verifier::truncate] ((n - 1) as usize),
        ) is Some {
            seq![#[verifier::truncate] ((n - 1) as usize)]
        } else {
            seq![]
        }
    }
}

/// The colors listed by `admissible_colors` are exactly those below `n` with
/// a governing rule.
pub proof fn lemma_admissible_colors_iff(
    rules: Seq<Rule>, e1: usize, c1: usize, e2: usize, n: int, x: usize,
)
    requires
        n <= usize::MAX,
    ensures
        admissible_colors(rules, e1, c1, e2, n).contains(x) <==> (x < n && first_match(
            rules, e1, c1, e2, x,
        ) is Some),
    decreases n,
{
    if n > 0 {
        lemma_admissible_colors_iff(rules, e1, c1, e2, n - 1, x);
        let prev = admissible_colors(rules, e1, c1, e2, n - 1);
        let tail: Seq<usize> = if first_match(rules, e1, c1, e2, (n - 1) as usize) is Some {
            seq![(n - 1) as usize]
        } else {
            seq![]
        };
        assert(admissible_colors(rules, e1, c1, e2, n) == prev + tail);
        if prev.contains(x) {
            let i = choose|i: int| 0 <= i < prev.len() && prev[i] == x;
            assert((prev + tail)[i] == x);
        }
        if tail.contains(x) {
            let i = choose|i: int| 0 <= i < tail.len() && tail[i] == x;
            assert((prev + tail)[prev.len() + i] == x);
        }
        if first_match(rules, e1, c1, e2, (n - 1) as usize) is Some && x as int == n - 1 {
            assert(tail[0] == x);
            assert(tail.contains(x));
        }
        if (prev + tail).contains(x) {
            let i = choose|i: int| 0 <= i < (prev + tail).len() && (prev + tail)[i] == x;
            if i < prev.len() {
                assert(prev[i] == x);
            } else {
                assert(tail[i - prev.len()] == x);
            }
        }
    }
}

/// An error raised while compiling a rule table.
#[derive(Debug)]
pub struct ParseRuletableError {
    msg: String,
}

impl ParseRuletableError {
    /// The characters of the error's description.
    pub closed spec fn msg_spec(&self) -> Seq<char> {
        self.msg@
    }

    pub(crate) fn new(msg: String) -> (r: ParseRuletableError)
        ensures
            r.msg_spec() == msg@,
    {
        ParseRuletableError { msg }
    }

    /// The human-readable description of the error.
    pub fn message(&self) -> (r: &str)
        ensures
            r@ == self.msg_spec(),
    {
        self.msg.as_str()
    }
}

/// An error raised while obtaining a rule table: the source could not be
/// read, or its text did not compile.
#[derive(Debug)]
pub enum ReadRuletableError {
    IoError(String),
    ParseError(ParseRuletableError),
}

impl ReadRuletableError {
    /// The human-readable description of the error.
    pub fn message(&self) -> &str {
        match self {
            ReadRuletableError::IoError(m) => m.as_str(),
            ReadRuletableError::ParseError(e) => e.message(),
        }
    }
}

/// The compiled rule table: name-to-id maps for edges, colors and sets, the
/// declared start triples and output pairs, the rules in declaration order,
/// and the two dispatch tables derived from them.
#[derive(Debug)]
pub struct Ruletable {
    colors: Vec<String>,
    edges: Vec<(String, (usize, usize))>,
    sets: Vec<String>,
    start: Vec<(usize, usize, usize)>,
    output: Vec<(usize, usize)>,
    rules: Vec<Rule>,
    to_rulenum: Array4D<usize>,
    to_color: Array3D<Vec<usize>>,
}

impl Ruletable {
    /// The declared color names, in id order.
    pub closed spec fn colors_spec(&self) -> Seq<String> {
        self.colors@
    }

    /// The declared edge names with their (forward, reverse) id pairs.
    pub closed spec fn edges_spec(&self) -> Seq<(String, (usize, usize))> {
        self.edges@
    }

    /// The declared set names, in id order.
    pub closed spec fn sets_spec(&self) -> Seq<String> {
        self.sets@
    }

    /// The declared start triples `(set, edge, color)`.
    pub closed spec fn start_spec(&self) -> Seq<(usize, usize, usize)> {
        self.start@
    }

    /// The declared output pairs `(edge, color)`.
    pub closed spec fn output_spec(&self) -> Seq<(usize, usize)> {
        self.output@
    }

    /// The rules, in declaration order.
    pub closed spec fn rules_spec(&self) -> Seq<Rule> {
        self.rules@
    }

    /// The number of edge ids.
    pub open spec fn num_edges_spec(&self) -> usize {
        self.edges_spec().len() as usize
    }

    /// The number of color ids; a table without declared colors still has
    /// one implicit color.
    pub open spec fn num_colors_spec(&self) -> usize {
        if self.colors_spec().len() == 0 {
            1usize
        } else {
            self.colors_spec().len() as usize
        }
    }

    /// The number of set ids.
    pub open spec fn num_sets_spec(&self) -> usize {
        self.sets_spec().len() as usize
    }

    /// The recorded rule index for `(e1, c1) -> (e2, c2)`; the largest
    /// `usize` is the no-match sentinel.
    pub closed spec fn rulenum_spec(&self, e1: int, c1: int, e2: int, c2: int) -> usize {
        self.to_rulenum.entry(e1, c1, e2, c2)
    }

    /// The recorded candidate colors for `(e1, c1) -> e2`.
    pub closed spec fn colors_for_spec(&self, e1: int, c1: int, e2: int) -> Seq<usize> {
        self.to_color.entry(e1, c1, e2)@
    }

    /// Well-formedness: every recorded id lies in its id space, every rule
    /// expression is valid and names declared sets only, and the two dispatch
    /// tables agree with first-match over the rules.
    pub open spec fn wf(&self) -> bool {
        let ne = self.num_edges_spec();
        let nc = self.num_colors_spec();
        let ns = self.num_sets_spec();
        &&& self.edges_spec().len() <= usize::MAX
        &&& self.colors_spec().len() <= usize::MAX
        &&& self.sets_spec().len() <= usize::MAX
        &&& self.rules_spec().len() <= usize::MAX
        &&& self.start_spec().len() <= usize::MAX
        &&& self.output_spec().len() <= usize::MAX
        &&& forall|k: int| 0 <= k < self.edges_spec().len()
            ==> (#[trigger] self.edges_spec()[k]).1.0 == k && self.edges_spec()[k].1.1 < ne
        &&& forall|k: int| 0 <= k < self.start_spec().len()
            ==> (#[trigger] self.start_spec()[k]).0 < ns && self.start_spec()[k].1 < ne
                && self.start_spec()[k].2 < nc
        &&& forall|k: int| 0 <= k < self.output_spec().len()
            ==> (#[trigger] self.output_spec()[k]).0 < ne && self.output_spec()[k].1 < nc
        &&& forall|k: int| 0 <= k < self.rules_spec().len()
            ==> expr_valid((#[trigger] self.rules_spec()[k]).expression) && expr_sets_below(
                self.rules_spec()[k].expression, ns as int,
            )
        &&& ne * nc <= usize::MAX
        &&& ne * nc * ne <= usize::MAX
        &&& ne * nc * ne * nc <= usize::MAX
        &&& self.rulenum_table_wf()
        &&& self.rulenum_table_dims() == (ne, nc, ne, nc)
        &&& self.color_table_wf()
        &&& self.color_table_dims() == (ne, nc, ne)
        &&& forall|e1: int, c1: int, e2: int, c2: int|
            0 <= e1 < ne && 0 <= c1 < nc && 0 <= e2 < ne && 0 <= c2 < nc
                ==> #[trigger] self.rulenum_spec(e1, c1, e2, c2) == match first_match(
                self.rules_spec(), e1 as usize, c1 as usize, e2 as usize, c2 as usize,
            ) {
                Option::Some(i) => i as usize,
                Option::None => usize::MAX,
            }
        &&& forall|e1: int, c1: int, e2: int|
            0 <= e1 < ne && 0 <= c1 < nc && 0 <= e2 < ne
                ==> #[trigger] self.colors_for_spec(e1, c1, e2) == admissible_colors(
                self.rules_spec(), e1 as usize, c1 as usize, e2 as usize, nc as int,
            )
    }

    /// The number of edge ids.
    pub fn num_edges(&self) -> (n: usize)
        ensures
            n == self.num_edges_spec(),
            self.edges_spec().len() <= usize::MAX,
            n == self.edges_spec().len(),
    {
        self.edges.len()
    }

    /// The number of color ids, at least one.
    pub fn num_colors(&self) -> (n: usize)
        ensures
            n == self.num_colors_spec(),
            self.colors_spec().len() <= usize::MAX,
    {
        if self.colors.len() == 0 {
            1
        } else {
            self.colors.len()
        }
    }

    /// The number of set ids.
    pub fn num_sets(&self) -> (n: usize)
        ensures
            n == self.num_sets_spec(),
            self.sets_spec().len() <= usize::MAX,
            n == self.sets_spec().len(),
    {
        self.sets.len()
    }

    /// The declared start triples `(set, edge, color)`.
    pub fn starts(&self) -> (r: &Vec<(usize, usize, usize)>)
        ensures
            r@ == self.start_spec(),
    {
        &self.start
    }

    /// The declared output pairs `(edge, color)`.
    pub fn outputs(&self) -> (r: &Vec<(usize, usize)>)
        ensures
            r@ == self.output_spec(),
    {
        &self.output
    }

    /// The candidate colors recorded for `(e1, c1) -> e2`.
    pub fn possible_colors(&self, e1: usize, c1: usize, e2: usize) -> (r: &Vec<usize>)
        requires
            self.wf(),
            e1 < self.num_edges_spec(),
            c1 < self.num_colors_spec(),
            e2 < self.num_edges_spec(),
        ensures
            r@ == self.colors_for_spec(e1 as int, c1 as int, e2 as int),
    {
        self.to_color.get(e1, c1, e2)
    }

    /// The (forward, reverse) id pair of an edge name, if declared.
    pub fn get_edge_ids(&self, s: &str) -> (r: Option<(usize, usize)>)
        ensures
            match crate::strutil::find_pair(crate::strutil::pair_views_of(self.edges_spec()), s@) {
                Option::Some(i) => r == Option::Some(self.edges_spec()[i].1),
                Option::None => r is None,
            },
    {
        match crate::strutil::find_in_pairs(&self.edges, s) {
            Some(i) => {
                proof {
                    crate::strutil::lemma_find_pair_bounds(
                        crate::strutil::pair_views_of(self.edges@), s@, 0,
                    );
                }
                Some(self.edges[i].1)
            },
            None => None,
        }
    }

    /// The id of a color name, if declared.
    pub fn get_color_id(&self, s: &str) -> (r: Option<usize>)
        ensures
            match crate::strutil::find_name(crate::strutil::views_of(self.colors_spec()), s@) {
                Option::Some(i) => r == Option::Some(i as usize),
                Option::None => r is None,
            },
    {
        crate::strutil::find_in_names(&self.colors, s)
    }

    /// The id of a set name, if declared.
    pub fn get_set_id(&self, s: &str) -> (r: Option<usize>)
        ensures
            match crate::strutil::find_name(crate::strutil::views_of(self.sets_spec()), s@) {
                Option::Some(i) => r == Option::Some(i as usize),
                Option::None => r is None,
            },
    {
        crate::strutil::find_in_names(&self.sets, s)
    }

    /// The edge names by id: the name whose forward id is `k` stands at
    /// position `k`.
    #[verifier::loop_isolation(false)]
    pub fn get_edge_strings(&self) -> (r: Vec<String>)
        requires
            self.wf(),
        ensures
            r@.len() == self.num_edges_spec(),
            forall|k: int|
                0 <= k < r@.len() ==> (#[trigger] r@[k])@ == self.edges_spec()[k].0@,
    {
        let mut r: Vec<String> = Vec::new();
        let n = self.num_edges();
        let mut k: usize = 0;
        while k < n
            invariant
                k <= n,
                r@.len() == k,
                forall|q: int|
                    0 <= q < k ==> (#[trigger] r@[q])@ == self.edges_spec()[q].0@,
        decreases n - k,
        {
            let name = self.edges[k].0.as_str().to_owned();
            r.push(name);
            k = k + 1;
        }
        r
    }

    /// The color names by id.
    #[verifier::loop_isolation(false)]
    pub fn get_color_strings(&self) -> (r: Vec<String>)
        ensures
            r@.len() == self.colors_spec().len(),
            forall|k: int|
                0 <= k < r@.len() ==> (#[trigger] r@[k])@ == self.colors_spec()[k]@,
    {
        let mut r: Vec<String> = Vec::new();
        let mut k: usize = 0;
        while k < self.colors.len()
            invariant
                k <= self.colors_spec().len(),
                r@.len() == k,
                forall|q: int|
                    0 <= q < k ==> (#[trigger] r@[q])@ == self.colors_spec()[q]@,
        decreases self.colors_spec().len() - k,
        {
            let name = self.colors[k].as_str().to_owned();
            r.push(name);
            k = k + 1;
        }
        r
    }

    /// Evaluates the guard of the first rule governing the transition from
    /// `s1` to `s2`, with `s1.node` the current and `s2.node` the next vertex.
    pub fn pass(&self, sets: &Sets, s1: State, s2: State) -> (r: bool)
        requires
            self.wf(),
            sets.rows().len() == self.num_sets_spec(),
            s1.edge < self.num_edges_spec(),
            s1.color < self.num_colors_spec(),
            s2.edge < self.num_edges_spec(),
            s2.color < self.num_colors_spec(),
            first_match(self.rules_spec(), s1.edge, s1.color, s2.edge, s2.color) is Some,
        ensures
            r == eval_expr(
                self.rules_spec()[first_match(
                    self.rules_spec(), s1.edge, s1.color, s2.edge, s2.color,
                )->Some_0].expression,
                sets.rows(), s1.node as int, s2.node as int,
            ),
    {
        let rule_num = *self.to_rulenum.get(s1.edge, s1.color, s2.edge, s2.color);
        proof {
            lemma_first_match_properties(
                self.rules_spec(), s1.edge, s1.color, s2.edge, s2.color, 0,
            );
            let i = first_match(self.rules_spec(), s1.edge, s1.color, s2.edge, s2.color)->Some_0;
            assert(0 <= i < self.rules_spec().len());
            assert(self.rulenum_spec(
                s1.edge as int, s1.color as int, s2.edge as int, s2.color as int,
            ) == rule_num);
            assert(rule_num == i as usize);
            assert(rule_num < self.rules_spec().len());
        }
        self.rules[rule_num].expression.evaluate(sets, s1.node, s2.node)
    }

    /// Fills the two dispatch tables from the rules: for every transition
    /// shape the first governing rule, and for every `(e1, c1, e2)` the
    /// colors some rule admits.
    #[verifier::loop_isolation(false)]
    pub(crate) fn precompute(&mut self)
        requires
            old(self).edges_spec().len() <= usize::MAX,
            old(self).rules_spec().len() <= usize::MAX,
            old(self).num_edges_spec() * old(self).num_colors_spec() <= usize::MAX,
            old(self).num_edges_spec() * old(self).num_colors_spec()
                * old(self).num_edges_spec() <= usize::MAX,
            old(self).num_edges_spec() * old(self).num_colors_spec()
                * old(self).num_edges_spec() * old(self).num_colors_spec() <= usize::MAX,
        ensures
            final(self).colors_spec() == old(self).colors_spec(),
            final(self).edges_spec() == old(self).edges_spec(),
            final(self).sets_spec() == old(self).sets_spec(),
            final(self).start_spec() == old(self).start_spec(),
            final(self).output_spec() == old(self).output_spec(),
            final(self).rules_spec() == old(self).rules_spec(),
            tables_shaped(final(self), old(self).num_edges_spec(), old(self).num_colors_spec()),
            rulenum_filled(
                final(self), old(self).rules_spec(), old(self).num_edges_spec(),
                old(self).num_colors_spec(), old(self).num_edges_spec() as int, 0, 0, 0,
            ),
            colors_filled(
                final(self), old(self).rules_spec(), old(self).num_edges_spec(),
                old(self).num_colors_spec(), old(self).num_edges_spec() as int, 0, 0,
            ),
    {
        let ne = self.num_edges();
        let nc = self.num_colors();
        self.to_rulenum = Array4D::new(ne, nc, ne, nc, usize::MAX);
        self.to_color = Array3D::new_empty_lists(ne, nc, ne);
        let ghost rules0 = self.rules_spec();
        let mut e1: usize = 0;
        while e1 < ne
            invariant
                e1 <= ne,
                rulenum_filled(self, rules0, ne, nc, e1 as int, 0, 0, 0),
                rulenum_rest_default(self, ne, nc, e1 as int, 0, 0, 0),
                colors_filled(self, rules0, ne, nc, e1 as int, 0, 0),
                colors_rest_empty(self, ne, nc, e1 as int, 0, 0),
                tables_shaped(self, ne, nc),
                self.colors_spec() == old(self).colors_spec(),
                self.edges_spec() == old(self).edges_spec(),
                self.sets_spec() == old(self).sets_spec(),
                self.start_spec() == old(self).start_spec(),
                self.output_spec() == old(self).output_spec(),
                self.rules_spec() == rules0,
            decreases ne - e1,
        {
            let mut c1: usize = 0;
            while c1 < nc
                invariant
                    e1 < ne,
                    c1 <= nc,
                    rulenum_filled(self, rules0, ne, nc, e1 as int, c1 as int, 0, 0),
                    rulenum_rest_default(self, ne, nc, e1 as int, c1 as int, 0, 0),
                    colors_filled(self, rules0, ne, nc, e1 as int, c1 as int, 0),
                    colors_rest_empty(self, ne, nc, e1 as int, c1 as int, 0),
                    tables_shaped(self, ne, nc),
                    self.colors_spec() == old(self).colors_spec(),
                    self.edges_spec() == old(self).edges_spec(),
                    self.sets_spec() == old(self).sets_spec(),
                    self.start_spec() == old(self).start_spec(),
                    self.output_spec() == old(self).output_spec(),
                    self.rules_spec() == rules0,
                decreases nc - c1,
            {
                let mut e2: usize = 0;
                while e2 < ne
                    invariant
                        e1 < ne,
                        c1 < nc,
                        e2 <= ne,
                        rulenum_filled(self, rules0, ne, nc, e1 as int, c1 as int, e2 as int, 0),
                        rulenum_rest_default(self, ne, nc, e1 as int, c1 as int, e2 as int, 0),
                        colors_filled(self, rules0, ne, nc, e1 as int, c1 as int, e2 as int),
                        colors_rest_empty(self, ne, nc, e1 as int, c1 as int, e2 as int),
                        tables_shaped(self, ne, nc),
                        self.colors_spec() == old(self).colors_spec(),
                        self.edges_spec() == old(self).edges_spec(),
                        self.sets_spec() == old(self).sets_spec(),
                        self.start_spec() == old(self).start_spec(),
                        self.output_spec() == old(self).output_spec(),
                        self.rules_spec() == rules0,
                    decreases ne - e2,
                {
                    let mut c2: usize = 0;
                    while c2 < nc
                        invariant
                            e1 < ne,
                            c1 < nc,
                            e2 < ne,
                            c2 <= nc,
                            rulenum_filled(
                                self, rules0, ne, nc, e1 as int, c1 as int, e2 as int, c2 as int,
                            ),
                            rulenum_rest_default(
                                self, ne, nc, e1 as int, c1 as int, e2 as int, c2 as int,
                            ),
                            colors_filled(self, rules0, ne, nc, e1 as int, c1 as int, e2 as int),
                            colors_rest_empty(self, ne, nc, e1 as int, c1 as int, e2 + 1),
                            self.colors_for_spec(e1 as int, c1 as int, e2 as int)
                                == admissible_colors(rules0, e1, c1, e2, c2 as int),
                            tables_shaped(self, ne, nc),
                            self.colors_spec() == old(self).colors_spec(),
                            self.edges_spec() == old(self).edges_spec(),
                            self.sets_spec() == old(self).sets_spec(),
                            self.start_spec() == old(self).start_spec(),
                            self.output_spec() == old(self).output_spec(),
                            self.rules_spec() == rules0,
                        decreases nc - c2,
                    {
                        let s1 = State { node: 0, edge: e1, color: c1 };
                        let s2 = State { node: 0, edge: e2, color: c2 };
                        let ghost snap = *self;
                        match find_matching_rule(&self.rules, s1, s2) {
                            Some(i) => {
                                self.to_rulenum.set_at(e1, c1, e2, c2, i);
                                let mut entry = copy_ids(self.to_color.get(e1, c1, e2));
                                entry.push(c2);
                                self.to_color.set_at(e1, c1, e2, entry);
                            },
                            None => {},
                        }
                        proof {
                            lemma_precompute_step(
                                snap, *self, rules0, ne, nc, e1, c1, e2, c2,
                            );
                            assert(self.colors_for_spec(e1 as int, c1 as int, e2 as int)
                                =~= admissible_colors(rules0, e1, c1, e2, c2 + 1));
                        }
                        c2 = c2 + 1;
                    }
                    e2 = e2 + 1;
                }
                c1 = c1 + 1;
            }
            e1 = e1 + 1;
        }
    }
}

/// The first rule whose case governs the transition from `s1` to `s2`.
fn find_matching_rule(rules: &Vec<Rule>, s1: State, s2: State) -> (r: Option<usize>)
    ensures
        match first_match(rules@, s1.edge, s1.color, s2.edge, s2.color) {
            Option::Some(i) => r == Option::Some(i as usize),
            Option::None => r is None,
        },
{
    let mut i: usize = 0;
    while i < rules.len()
        invariant
            i <= rules@.len(),
            first_match(rules@, s1.edge, s1.color, s2.edge, s2.color) == first_match_from(
                rules@, s1.edge, s1.color, s2.edge, s2.color, i as int,
            ),
        decreases rules@.len() - i,
    {
        if rules[i].case.is_matched(s1, s2) {
            return Some(i);
        }
        i = i + 1;
    }
    None
}

/// A copy of an id list.
fn copy_ids(v: &Vec<usize>) -> (r: Vec<usize>)
    ensures
        r@ == v@,
{
    let mut r: Vec<usize> = Vec::new();
    let mut i: usize = 0;
    while i < v.len()
        invariant
            i <= v@.len(),
            r@ == v@.take(i as int),
        decreases v@.len() - i,
    {
        r.push(v[i]);
        proof {
            assert(r@ =~= v@.take(i + 1));
        }
        i = i + 1;
    }
    proof {
        assert(v@.take(v@.len() as int) =~= v@);
    }
    r
}

/// The dispatch tables have the shape `wf` asks of them.
pub open spec fn tables_shaped(rt: &Ruletable, ne: usize, nc: usize) -> bool {
    &&& rt.rulenum_table_wf()
    &&& rt.rulenum_table_dims() == (ne, nc, ne, nc)
    &&& rt.color_table_wf()
    &&& rt.color_table_dims() == (ne, nc, ne)
}

impl Ruletable {
    pub closed spec fn rulenum_table_wf(&self) -> bool {
        self.to_rulenum.wf()
    }

    pub closed spec fn rulenum_table_dims(&self) -> (usize, usize, usize, usize) {
        self.to_rulenum.dims()
    }

    pub closed spec fn color_table_wf(&self) -> bool {
        self.to_color.wf()
    }

    pub closed spec fn color_table_dims(&self) -> (usize, usize, usize) {
        self.to_color.dims()
    }
}

/// The rule-number table holds first-match results at every quadruple
/// lexicographically below `(e1, c1, e2, c2)`.
pub open spec fn rulenum_filled(
    rt: &Ruletable, rules: Seq<Rule>, ne: usize, nc: usize, e1: int, c1: int, e2: int, c2: int,
) -> bool {
    forall|a: int, b: int, c: int, d: int|
        0 <= a < ne && 0 <= b < nc && 0 <= c < ne && 0 <= d < nc && quad_lt(
            a, b, c, d, e1, c1, e2, c2,
        ) ==> #[trigger] rt.rulenum_spec(a, b, c, d) == match first_match(
            rules, a as usize, b as usize, c as usize, d as usize,
        ) {
            Option::Some(i) => i as usize,
            Option::None => usize::MAX,
        }
}

/// The rule-number table still holds the sentinel at every quadruple at or
/// above `(e1, c1, e2, c2)`.
pub open spec fn rulenum_rest_default(
    rt: &Ruletable, ne: usize, nc: usize, e1: int, c1: int, e2: int, c2: int,
) -> bool {
    forall|a: int, b: int, c: int, d: int|
        0 <= a < ne && 0 <= b < nc && 0 <= c < ne && 0 <= d < nc && !quad_lt(
            a, b, c, d, e1, c1, e2, c2,
        ) ==> #[trigger] rt.rulenum_spec(a, b, c, d) == usize::MAX
}

/// The color table is complete at every triple lexicographically below
/// `(e1, c1, e2)`.
pub open spec fn colors_filled(
    rt: &Ruletable, rules: Seq<Rule>, ne: usize, nc: usize, e1: int, c1: int, e2: int,
) -> bool {
    forall|a: int, b: int, c: int|
        0 <= a < ne && 0 <= b < nc && 0 <= c < ne && triple_lt(a, b, c, e1, c1, e2)
            ==> (#[trigger] rt.colors_for_spec(a, b, c)) == admissible_colors(
            rules, a as usize, b as usize, c as usize, nc as int,
        )
}

/// The color table is still empty at every triple at or above `(e1, c1, e2)`.
pub open spec fn colors_rest_empty(
    rt: &Ruletable, ne: usize, nc: usize, e1: int, c1: int, e2: int,
) -> bool {
    forall|a: int, b: int, c: int|
        0 <= a < ne && 0 <= b < nc && 0 <= c < ne && !triple_lt(a, b, c, e1, c1, e2)
            ==> (#[trigger] rt.colors_for_spec(a, b, c)) == Seq::<usize>::empty()
}

/// One cell of the dispatch tables was filled: the bookkeeping that the
/// partially filled tables advance by one quadruple.
proof fn lemma_precompute_step(
    snap: Ruletable, cur: Ruletable, rules: Seq<Rule>, ne: usize, nc: usize,
    e1: usize, c1: usize, e2: usize, c2: usize,
)
    requires
        e1 < ne,
        c1 < nc,
        e2 < ne,
        c2 < nc,
        rulenum_filled(&snap, rules, ne, nc, e1 as int, c1 as int, e2 as int, c2 as int),
        rulenum_rest_default(&snap, ne, nc, e1 as int, c1 as int, e2 as int, c2 as int),
        colors_filled(&snap, rules, ne, nc, e1 as int, c1 as int, e2 as int),
        colors_rest_empty(&snap, ne, nc, e1 as int, c1 as int, e2 + 1),
        snap.colors_for_spec(e1 as int, c1 as int, e2 as int) == admissible_colors(
            rules, e1, c1, e2, c2 as int,
        ),
        tables_shaped(&snap, ne, nc),
        tables_shaped(&cur, ne, nc),
        // what the one update (or the absence of one) left behind
        match first_match(rules, e1, c1, e2, c2) {
            Option::Some(i) => cur.rulenum_spec(e1 as int, c1 as int, e2 as int, c2 as int)
                == i as usize && cur.colors_for_spec(e1 as int, c1 as int, e2 as int)
                == snap.colors_for_spec(e1 as int, c1 as int, e2 as int).push(c2),
            Option::None => cur.rulenum_spec(e1 as int, c1 as int, e2 as int, c2 as int)
                == snap.rulenum_spec(e1 as int, c1 as int, e2 as int, c2 as int)
                && cur.colors_for_spec(e1 as int, c1 as int, e2 as int) == snap.colors_for_spec(
                e1 as int, c1 as int, e2 as int,
            ),
        },
        forall|a: int, b: int, c: int, d: int|
            0 <= a < ne && 0 <= b < nc && 0 <= c < ne && 0 <= d < nc
                && !(a == e1 && b == c1 && c == e2 && d == c2)
                ==> #[trigger] cur.rulenum_spec(a, b, c, d) == snap.rulenum_spec(a, b, c, d),
        forall|a: int, b: int, c: int|
            0 <= a < ne && 0 <= b < nc && 0 <= c < ne && !(a == e1 && b == c1 && c == e2)
                ==> #[trigger] cur.colors_for_spec(a, b, c) == snap.colors_for_spec(a, b, c),
        rules.len() <= usize::MAX,
    ensures
        rulenum_filled(&cur, rules, ne, nc, e1 as int, c1 as int, e2 as int, c2 + 1),
        rulenum_rest_default(&cur, ne, nc, e1 as int, c1 as int, e2 as int, c2 + 1),
        colors_filled(&cur, rules, ne, nc, e1 as int, c1 as int, e2 as int),
        colors_rest_empty(&cur, ne, nc, e1 as int, c1 as int, e2 + 1),
        cur.colors_for_spec(e1 as int, c1 as int, e2 as int) == admissible_colors(
            rules, e1, c1, e2, c2 + 1,
        ),
{
    lemma_first_match_properties(rules, e1, c1, e2, c2, 0);
    assert forall|a: int, b: int, c: int, d: int|
        0 <= a < ne && 0 <= b < nc && 0 <= c < ne && 0 <= d < nc && quad_lt(
            a, b, c, d, e1 as int, c1 as int, e2 as int, c2 + 1,
        ) implies #[trigger] cur.rulenum_spec(a, b, c, d) == (match first_match(
        rules, a as usize, b as usize, c as usize, d as usize,
    ) {
        Option::Some(i) => i as usize,
        Option::None => usize::MAX,
    }) by {
        if a == e1 && b == c1 && c == e2 && d == c2 {
        } else {
            assert(quad_lt(a, b, c, d, e1 as int, c1 as int, e2 as int, c2 as int));
            assert(cur.rulenum_spec(a, b, c, d) == snap.rulenum_spec(a, b, c, d));
        }
    }
    assert forall|a: int, b: int, c: int, d: int|
        0 <= a < ne && 0 <= b < nc && 0 <= c < ne && 0 <= d < nc && !quad_lt(
            a, b, c, d, e1 as int, c1 as int, e2 as int, c2 + 1,
        ) implies #[trigger] cur.rulenum_spec(a, b, c, d) == usize::MAX by {
        assert(!quad_lt(a, b, c, d, e1 as int, c1 as int, e2 as int, c2 as int));
        assert(!(a == e1 && b == c1 && c == e2 && d == c2));
        assert(cur.rulenum_spec(a, b, c, d) == snap.rulenum_spec(a, b, c, d));
    }
    assert forall|a: int, b: int, c: int|
        0 <= a < ne && 0 <= b < nc && 0 <= c < ne && triple_lt(
            a, b, c, e1 as int, c1 as int, e2 as int,
        ) implies (#[trigger] cur.colors_for_spec(a, b, c)) == admissible_colors(
        rules, a as usize, b as usize, c as usize, nc as int,
    ) by {
        assert(!(a == e1 && b == c1 && c == e2));
        assert(cur.colors_for_spec(a, b, c) == snap.colors_for_spec(a, b, c));
    }
    assert forall|a: int, b: int, c: int|
        0 <= a < ne && 0 <= b < nc && 0 <= c < ne && !triple_lt(
            a, b, c, e1 as int, c1 as int, e2 + 1,
        ) implies (#[trigger] cur.colors_for_spec(a, b, c)) == Seq::<usize>::empty() by {
        assert(!(a == e1 && b == c1 && c == e2));
        assert(cur.colors_for_spec(a, b, c) == snap.colors_for_spec(a, b, c));
    }
    match first_match(rules, e1, c1, e2, c2) {
        Option::Some(_) => {
            assert(cur.colors_for_spec(e1 as int, c1 as int, e2 as int) =~= admissible_colors(
                rules, e1, c1, e2, c2 + 1,
            ));
        },
        Option::None => {
            assert(cur.colors_for_spec(e1 as int, c1 as int, e2 as int) =~= admissible_colors(
                rules, e1, c1, e2, c2 + 1,
            ));
        },
    }
}

/// Lexicographic order on quadruples.
pub open spec fn quad_lt(
    a: int, b: int, c: int, d: int, e1: int, c1: int, e2: int, c2: int,
) -> bool {
    a < e1 || (a == e1 && (b < c1 || (b == c1 && (c < e2 || (c == e2 && d < c2)))))
}

/// Lexicographic order on triples.
pub open spec fn triple_lt(a: int, b: int, c: int, e1: int, c1: int, e2: int) -> bool {
    a < e1 || (a == e1 && (b < c1 || (b == c1 && c < e2)))
}

/// The kind of one rule table line, decided by its first characters.
#[derive(Clone, Copy, Debug, PartialEq, Eq, Structural)]
pub enum LineType {
    Empty,
    Comment,
    Edges,
    Colors,
    Sets,
    Start,
    Output,
    Rule,
}

/// The kind a trimmed line is classified as: blank, comment, one of the five
/// declaration keywords, or a rule.
pub open spec fn classify_line(s: Seq<char>) -> LineType {
    if s.len() == 0 {
        LineType::Empty
    } else if is_prefix_of("#"@, s) {
        LineType::Comment
    } else if is_prefix_of("EDGES"@, s) {
        LineType::Edges
    } else if is_prefix_of("COLORS"@, s) {
        LineType::Colors
    } else if is_prefix_of("SETS"@, s) {
        LineType::Sets
    } else if is_prefix_of("START"@, s) {
        LineType::Start
    } else if is_prefix_of("OUTPUT"@, s) {
        LineType::Output
    } else {
        LineType::Rule
    }
}

impl LineType {
    /// The keyword opening a declaration line of this kind.
    pub fn get_identifier(&self) -> (r: Option<&str>)
        ensures
            r is Some <==> !(self is Empty || self is Rule),
    {
        match self {
            LineType::Empty | LineType::Rule => None,
            LineType::Comment => Some("#"),
            LineType::Edges => Some("EDGES"),
            LineType::Colors => Some("COLORS"),
            LineType::Sets => Some("SETS"),
            LineType::Start => Some("START"),
            LineType::Output => Some("OUTPUT"),
        }
    }

    /// A short label of the line kind for error reports, as
    /// `describe_spec` says.
    pub fn describe(&self) -> (r: &str)
        ensures
            r@ == describe_spec(*self),
    {
        match self {
            LineType::Empty => "empty",
            LineType::Comment => "comment",
            LineType::Edges => "edge declaration",
            LineType::Colors => "color declaration",
            LineType::Sets => "set declaration",
            LineType::Start => "start declaration",
            LineType::Output => "output declaration",
            LineType::Rule => "rule declaration",
        }
    }
}

/// The forward edge ids a comma-separated name list resolves to, over its
/// first `t` tokens; a wildcard among several tokens or an unknown name is a
/// failure.
pub open spec fn edge_list_fold(rt: &Ruletable, toks: Seq<Seq<char>>, t: int) -> Option<
    Seq<usize>,
>
    decreases t,
{
    if t <= 0 {
        Option::Some(seq![])
    } else {
        match edge_list_fold(rt, toks, t - 1) {
            Option::None => Option::None,
            Option::Some(acc) => if toks[t - 1] == "..."@ {
                Option::None
            } else {
                match crate::strutil::find_pair(
                    crate::strutil::pair_views_of(rt.edges_spec()), toks[t - 1],
                ) {
                    Option::Some(k) => Option::Some(acc.push(rt.edges_spec()[k].1.0)),
                    Option::None => Option::None,
                }
            },
        }
    }
}

/// The edge pattern a text denotes: the wildcard alone, one resolved name,
/// or a list of resolved names.
pub open spec fn edge_pattern_spec(rt: &Ruletable, s: Seq<char>) -> Option<PatternModel> {
    let toks = crate::strutil::tokenize_spec(s, ","@);
    if toks.len() == 1 {
        if toks[0] == "..."@ {
            Option::Some(PatternModel::All)
        } else {
            match crate::strutil::find_pair(
                crate::strutil::pair_views_of(rt.edges_spec()), toks[0],
            ) {
                Option::Some(k) => Option::Some(PatternModel::Single(rt.edges_spec()[k].1.0)),
                Option::None => Option::None,
            }
        }
    } else {
        match edge_list_fold(rt, toks, toks.len() as int) {
            Option::Some(ids) => Option::Some(PatternModel::Many(ids)),
            Option::None => Option::None,
        }
    }
}

/// The color ids a comma-separated name list resolves to, over its first
/// `t` tokens.
pub open spec fn color_list_fold(rt: &Ruletable, toks: Seq<Seq<char>>, t: int) -> Option<
    Seq<usize>,
>
    decreases t,
{
    if t <= 0 {
        Option::Some(seq![])
    } else {
        match color_list_fold(rt, toks, t - 1) {
            Option::None => Option::None,
            Option::Some(acc) => match crate::strutil::find_name(
                crate::strutil::views_of(rt.colors_spec()), toks[t - 1],
            ) {
                Option::Some(k) => Option::Some(acc.push(#[verifier::truncate] (k as usize))),
                Option::None => Option::None,
            },
        }
    }
}

/// The color pattern a text denotes: absence or the wildcard mean every
/// color, else one resolved name or a list of resolved names.
pub open spec fn color_pattern_spec(rt: &Ruletable, s: Seq<char>) -> Option<PatternModel> {
    if s.len() == 0 || crate::strutil::trim_spec(s) == "..."@ {
        Option::Some(PatternModel::All)
    } else {
        let toks = crate::strutil::tokenize_spec(s, ","@);
        if toks.len() == 1 {
            match crate::strutil::find_name(
                crate::strutil::views_of(rt.colors_spec()), toks[0],
            ) {
                Option::Some(k) => Option::Some(PatternModel::Single(
                    #[verifier::truncate] (k as usize),
                )),
                Option::None => Option::None,
            }
        } else {
            match color_list_fold(rt, toks, toks.len() as int) {
                Option::Some(ids) => Option::Some(PatternModel::Many(ids)),
                Option::None => Option::None,
            }
        }
    }
}

/// How often `c` occurs among the first `i` characters.
pub open spec fn char_count(s: Seq<char>, c: char, i: int) -> int
    decreases i,
{
    if i <= 0 {
        0
    } else {
        char_count(s, c, i - 1) + if s[i - 1] == c {
            1int
        } else {
            0int
        }
    }
}

/// The first position of `c` at or after `i`.
pub open spec fn find_char_from(s: Seq<char>, c: char, i: int) -> Option<int>
    decreases s.len() - i,
{
    if i < 0 || i >= s.len() {
        Option::None
    } else if s[i] == c {
        Option::Some(i)
    } else {
        find_char_from(s, c, i + 1)
    }
}

/// How an edge-color pattern splits at its optional bracket pair: without
/// brackets the whole text is the edge part and the color part is empty;
/// with one balanced pair ending the text, the prefix is the edge part and
/// the bracket content the color part.  Anything else fails.
pub open spec fn bracket_split_spec(s: Seq<char>) -> Option<(Seq<char>, Seq<char>)> {
    let no = char_count(s, '[', s.len() as int);
    let nc = char_count(s, ']', s.len() as int);
    if no != nc || no > 1 {
        Option::None
    } else if no == 0 {
        Option::Some((s, Seq::<char>::empty()))
    } else if s.len() == 0 || s.last() != ']' {
        Option::None
    } else {
        let p = find_char_from(s, '[', 0)->Some_0;
        Option::Some((s.take(p), s.subrange(p + 1, s.len() - 1)))
    }
}

/// The pattern pair an edge-color pattern text denotes.
pub open spec fn edge_color_patterns_spec(rt: &Ruletable, s: Seq<char>) -> Option<
    (PatternModel, PatternModel),
> {
    match bracket_split_spec(s) {
        Option::None => Option::None,
        Option::Some(parts) => match (edge_pattern_spec(rt, parts.0), color_pattern_spec(
            rt, parts.1,
        )) {
            (Option::Some(pe), Option::Some(pc)) => Option::Some((pe, pc)),
            _ => Option::None,
        },
    }
}

/// A failed fold stays failed as more tokens are taken in.
proof fn lemma_edge_list_fold_none(rt: &Ruletable, toks: Seq<Seq<char>>, t1: int, t2: int)
    requires
        0 <= t1 <= t2,
        edge_list_fold(rt, toks, t1) is None,
    ensures
        edge_list_fold(rt, toks, t2) is None,
    decreases t2,
{
    if t1 < t2 {
        lemma_edge_list_fold_none(rt, toks, t1, t2 - 1);
    }
}

/// A failed fold stays failed as more tokens are taken in.
proof fn lemma_color_list_fold_none(rt: &Ruletable, toks: Seq<Seq<char>>, t1: int, t2: int)
    requires
        0 <= t1 <= t2,
        color_list_fold(rt, toks, t1) is None,
    ensures
        color_list_fold(rt, toks, t2) is None,
    decreases t2,
{
    if t1 < t2 {
        lemma_color_list_fold_none(rt, toks, t1, t2 - 1);
    }
}

/// The ids a pattern shape expands to, out of `num` declared ones.
pub open spec fn pattern_model_vec(pm: PatternModel, num: usize) -> Seq<usize> {
    match pm {
        PatternModel::Single(v) => seq![v],
        PatternModel::Many(vs) => vs,
        PatternModel::All => Seq::new(
            if num == 0 {
                1nat
            } else {
                num as nat
            },
            |q: int| #[verifier::truncate] (q as usize),
        ),
    }
}

/// The set ids a comma-separated name list resolves to, over its first `t`
/// tokens.
pub open spec fn sets_list_fold(rt: &Ruletable, toks: Seq<Seq<char>>, t: int) -> Option<
    Seq<usize>,
>
    decreases t,
{
    if t <= 0 {
        Option::Some(seq![])
    } else {
        match sets_list_fold(rt, toks, t - 1) {
            Option::None => Option::None,
            Option::Some(acc) => match crate::strutil::find_name(
                crate::strutil::views_of(rt.sets_spec()), toks[t - 1],
            ) {
                Option::Some(k) => Option::Some(acc.push(#[verifier::truncate] (k as usize))),
                Option::None => Option::None,
            },
        }
    }
}

/// A failed fold stays failed as more tokens are taken in.
proof fn lemma_sets_list_fold_none(rt: &Ruletable, toks: Seq<Seq<char>>, t1: int, t2: int)
    requires
        0 <= t1 <= t2,
        sets_list_fold(rt, toks, t1) is None,
    ensures
        sets_list_fold(rt, toks, t2) is None,
    decreases t2,
{
    if t1 < t2 {
        lemma_sets_list_fold_none(rt, toks, t1, t2 - 1);
    }
}

/// One row of start triples: a fixed set and edge crossed with the first
/// `t` colors.
pub open spec fn start_colors_row(
    se: usize, e: usize, colors: Seq<usize>, t: int,
) -> Seq<(usize, usize, usize)>
    decreases t,
{
    if t <= 0 {
        seq![]
    } else {
        start_colors_row(se, e, colors, t - 1).push((se, e, colors[t - 1]))
    }
}

/// One block of start triples: a fixed set crossed with the first `b` edges
/// and every color.
pub open spec fn start_edges_block(
    se: usize, edges: Seq<usize>, b: int, colors: Seq<usize>,
) -> Seq<(usize, usize, usize)>
    decreases b,
{
    if b <= 0 {
        seq![]
    } else {
        start_edges_block(se, edges, b - 1, colors) + start_colors_row(
            se, edges[b - 1], colors, colors.len() as int,
        )
    }
}

/// The start triples of the first `a` sets crossed with every edge and
/// color: the set-major, then edge, then color order of the declaration.
pub open spec fn start_cross(
    sets: Seq<usize>, a: int, edges: Seq<usize>, colors: Seq<usize>,
) -> Seq<(usize, usize, usize)>
    decreases a,
{
    if a <= 0 {
        seq![]
    } else {
        start_cross(sets, a - 1, edges, colors) + start_edges_block(
            sets[a - 1], edges, edges.len() as int, colors,
        )
    }
}

/// One row of output pairs: a fixed edge crossed with the first `t` colors.
pub open spec fn output_colors_row(e: usize, colors: Seq<usize>, t: int) -> Seq<(usize, usize)>
    decreases t,
{
    if t <= 0 {
        seq![]
    } else {
        output_colors_row(e, colors, t - 1).push((e, colors[t - 1]))
    }
}

/// The output pairs of the first `b` edges crossed with every color, in
/// edge-major order.
pub open spec fn output_cross(edges: Seq<usize>, b: int, colors: Seq<usize>) -> Seq<
    (usize, usize),
>
    decreases b,
{
    if b <= 0 {
        seq![]
    } else {
        output_cross(edges, b - 1, colors) + output_colors_row(
            edges[b - 1], colors, colors.len() as int,
        )
    }
}

/// The start triples a start declaration denotes: the text before the
/// keyword `AT` as an edge-color pattern, the text after it as set names,
/// expanded to their set-major cross product.
pub open spec fn start_decl_spec(rt: &Ruletable, s: Seq<char>) -> Option<
    Seq<(usize, usize, usize)>,
> {
    let toks = crate::strutil::tokenize_spec(s, " AT "@);
    if toks.len() != 2 {
        Option::None
    } else {
        match edge_color_patterns_spec(rt, toks[0]) {
            Option::None => Option::None,
            Option::Some(pats) => {
                let set_toks = crate::strutil::tokenize_spec(toks[1], ","@);
                match sets_list_fold(rt, set_toks, set_toks.len() as int) {
                    Option::None => Option::None,
                    Option::Some(set_ids) => Option::Some(start_cross(
                        set_ids,
                        set_ids.len() as int,
                        pattern_model_vec(pats.0, rt.num_edges_spec()),
                        pattern_model_vec(pats.1, rt.num_colors_spec()),
                    )),
                }
            },
        }
    }
}

/// The output pairs an output declaration denotes: its edge-color pattern
/// expanded to the edge-major cross product.
pub open spec fn output_decl_spec(rt: &Ruletable, s: Seq<char>) -> Option<Seq<(usize, usize)>> {
    match edge_color_patterns_spec(rt, s) {
        Option::None => Option::None,
        Option::Some(pats) => {
            let edges = pattern_model_vec(pats.0, rt.num_edges_spec());
            Option::Some(output_cross(
                edges,
                edges.len() as int,
                pattern_model_vec(pats.1, rt.num_colors_spec()),
            ))
        },
    }
}

/// A pattern value expands exactly as its ghost shape does.
proof fn lemma_pattern_vec_model(p: Pattern, num: usize)
    ensures
        pattern_vec_spec(p, num) == pattern_model_vec(pattern_model(p), num),
{
    match p {
        Pattern::Single(_) => {},
        Pattern::Many(_) => {},
        Pattern::All => {
            assert(pattern_vec_spec(p, num) =~= pattern_model_vec(pattern_model(p), num));
        },
    }
}

/// The whitespace-separated name groups of an edge declaration: the
/// comma-separated pieces of the line, each split at whitespace.
pub open spec fn edge_groups_spec(s: Seq<char>) -> Seq<Seq<Seq<char>>> {
    crate::strutil::tokenize_spec(s, ","@).map_values(
        |t: Seq<char>| crate::strutil::ws_split_spec(t),
    )
}

/// The name-to-id-pair list an edge declaration denotes, folded over its
/// first `g` groups: a 1-name group takes one id standing for both
/// directions, a 2-name group takes two coupled ids; a group of any other
/// size, a repeated name, or an id space outgrowing the machine word is a
/// failure.
pub open spec fn edges_decl_fold(groups: Seq<Seq<Seq<char>>>, g: int) -> Option<
    Seq<(Seq<char>, (usize, usize))>,
>
    decreases g,
{
    if g <= 0 {
        Option::Some(seq![])
    } else {
        match edges_decl_fold(groups, g - 1) {
            Option::None => Option::None,
            Option::Some(acc) => {
                let grp = groups[g - 1];
                if grp.len() == 1 {
                    if crate::strutil::find_pair(acc, grp[0]) is Some || acc.len()
                        > usize::MAX {
                        Option::None
                    } else {
                        Option::Some(acc.push((
                            grp[0],
                            (#[verifier::truncate] (acc.len() as usize), #[verifier::truncate] (
                            acc.len() as usize)),
                        )))
                    }
                } else if grp.len() == 2 {
                    if crate::strutil::find_pair(acc, grp[0]) is Some || acc.len() + 1
                        > usize::MAX {
                        Option::None
                    } else {
                        let acc1 = acc.push((
                            grp[0],
                            (#[verifier::truncate] (acc.len() as usize), #[verifier::truncate] ((
                            acc.len() + 1) as usize)),
                        ));
                        if crate::strutil::find_pair(acc1, grp[1]) is Some {
                            Option::None
                        } else {
                            Option::Some(acc1.push((
                                grp[1],
                                (#[verifier::truncate] ((acc.len() + 1) as usize),
                                #[verifier::truncate] (acc.len() as usize)),
                            )))
                        }
                    }
                } else {
                    Option::None
                }
            },
        }
    }
}

/// The name-to-id-pair list an edge declaration denotes, if it is well
/// formed.
pub open spec fn edges_decl_spec(s: Seq<char>) -> Option<Seq<(Seq<char>, (usize, usize))>> {
    edges_decl_fold(edge_groups_spec(s), edge_groups_spec(s).len() as int)
}

/// A failed fold stays failed as more groups are taken in.
proof fn lemma_edges_fold_none(groups: Seq<Seq<Seq<char>>>, g1: int, g2: int)
    requires
        0 <= g1 <= g2,
        edges_decl_fold(groups, g1) is None,
    ensures
        edges_decl_fold(groups, g2) is None,
    decreases g2,
{
    if g1 < g2 {
        lemma_edges_fold_none(groups, g1, g2 - 1);
    }
}

/// The edge ids of a parsed edge declaration are coupled as the groups
/// assigned them: the entry at position `k` carries forward id `k`, and its
/// reverse id is either `k` itself (a symmetric, 1-name group) or the id of
/// its partner in a 2-name group, which points back.
pub open spec fn edge_ids_coupled(es: Seq<(String, (usize, usize))>) -> bool {
    forall|k: int|
        0 <= k < es.len() ==> (#[trigger] es[k]).1.0 == k && (es[k].1.1 == k || (es[k].1.1 == k
            + 1 && k + 1 < es.len() && es[k + 1].1 == ((k + 1) as usize, k as usize)) || (k >= 1
            && es[k].1.1 == k - 1 && es[k - 1].1 == ((k - 1) as usize, k as usize)))
}

/// Appending one symmetric entry keeps the ids coupled.
proof fn lemma_edge_ids_extend_one(pre: Seq<(String, (usize, usize))>, post: Seq<(String, (usize, usize))>)
    requires
        edge_ids_coupled(pre),
        pre.len() <= usize::MAX,
        post.len() == pre.len() + 1,
        forall|k: int| 0 <= k < pre.len() ==> post[k] == pre[k],
        post[pre.len() as int].1 == ((pre.len() as usize), (pre.len() as usize)),
    ensures
        edge_ids_coupled(post),
{
    assert forall|k: int| 0 <= k < post.len() implies (#[trigger] post[k]).1.0 == k && (
    post[k].1.1 == k || (post[k].1.1 == k + 1 && k + 1 < post.len() && post[k + 1].1 == ((k
        + 1) as usize, k as usize)) || (k >= 1 && post[k].1.1 == k - 1 && post[k - 1].1 == ((k
        - 1) as usize, k as usize))) by {
        if k < pre.len() {
            assert(pre[k].1.0 == k);
        }
    }
}

/// Appending one two-name group keeps the ids coupled.
proof fn lemma_edge_ids_extend_pair(pre: Seq<(String, (usize, usize))>, post: Seq<(String, (usize, usize))>)
    requires
        edge_ids_coupled(pre),
        pre.len() + 1 <= usize::MAX,
        post.len() == pre.len() + 2,
        forall|k: int| 0 <= k < pre.len() ==> post[k] == pre[k],
        post[pre.len() as int].1 == ((pre.len() as usize), ((pre.len() + 1) as usize)),
        post[pre.len() as int + 1].1 == (((pre.len() + 1) as usize), (pre.len() as usize)),
    ensures
        edge_ids_coupled(post),
{
    assert forall|k: int| 0 <= k < post.len() implies (#[trigger] post[k]).1.0 == k && (
    post[k].1.1 == k || (post[k].1.1 == k + 1 && k + 1 < post.len() && post[k + 1].1 == ((k
        + 1) as usize, k as usize)) || (k >= 1 && post[k].1.1 == k - 1 && post[k - 1].1 == ((k
        - 1) as usize, k as usize))) by {
        if k < pre.len() {
            assert(pre[k].1.0 == k);
        }
    }
}

/// The declarative fields of two tables agree.
pub open spec fn table_unchanged(a: &Ruletable, b: &Ruletable) -> bool {
    &&& a.edges_spec() == b.edges_spec()
    &&& a.colors_spec() == b.colors_spec()
    &&& a.sets_spec() == b.sets_spec()
    &&& a.start_spec() == b.start_spec()
    &&& a.output_spec() == b.output_spec()
    &&& a.rules_spec() == b.rules_spec()
}

/// The name-list condition of a `COLORS`/`SETS` line: every comma-separated
/// token nonempty and no token repeated.
pub open spec fn labels_ok(rest: Seq<char>) -> bool {
    let toks = crate::strutil::tokenize_spec(rest, ","@);
    (forall|a: int| 0 <= a < toks.len() ==> (#[trigger] toks[a]).len() > 0) && forall|
        a: int, b: int,
    | 0 <= a < b < toks.len() ==> toks[a] != toks[b]
}

/// What a parsed rule line pins down: three segments, both pattern pairs,
/// and the guard expression's parse, validity and set-id range.
pub open spec fn rule_matches_line(rt: &Ruletable, s: Seq<char>, rule: Rule) -> bool {
    let toks = crate::strutil::tokenize_spec(s, "|"@);
    &&& toks.len() == 3
    &&& edge_color_patterns_spec(rt, toks[0]) == Option::Some((
        pattern_model(rule.case.prev_edge),
        pattern_model(rule.case.prev_color),
    ))
    &&& edge_color_patterns_spec(rt, toks[1]) == Option::Some((
        pattern_model(rule.case.next_edge),
        pattern_model(rule.case.next_color),
    ))
    &&& crate::expression::from_string_spec(
        toks[2], crate::strutil::views_of(rt.sets_spec()),
    ) == Option::Some(crate::expression::expr_model(rule.expression))
    &&& expr_valid(rule.expression)
    &&& expr_sets_below(rule.expression, rt.num_sets_spec() as int)
}

/// A rule line parses: three segments, two pattern pairs, a valid guard.
pub open spec fn rule_line_ok(rt: &Ruletable, s: Seq<char>) -> bool {
    let toks = crate::strutil::tokenize_spec(s, "|"@);
    &&& toks.len() == 3
    &&& edge_color_patterns_spec(rt, toks[0]) is Some
    &&& edge_color_patterns_spec(rt, toks[1]) is Some
    &&& crate::expression::from_string_spec(
        toks[2], crate::strutil::views_of(rt.sets_spec()),
    ) is Some
}

/// Every rule's guard expression is valid.
pub open spec fn rules_valid(rules: Seq<Rule>) -> bool {
    forall|k: int| 0 <= k < rules.len() ==> expr_valid((#[trigger] rules[k]).expression)
}

/// The label of a line kind in error reports.
pub open spec fn describe_spec(lt: LineType) -> Seq<char> {
    match lt {
        LineType::Empty => "empty"@,
        LineType::Comment => "comment"@,
        LineType::Edges => "edge declaration"@,
        LineType::Colors => "color declaration"@,
        LineType::Sets => "set declaration"@,
        LineType::Start => "start declaration"@,
        LineType::Output => "output declaration"@,
        LineType::Rule => "rule declaration"@,
    }
}

/// The copy of a failing line quoted in an error report: at most 80
/// characters, with an ellipsis when cut.
pub open spec fn truncated_line(l: Seq<char>) -> Seq<char> {
    if l.len() <= 80 {
        l
    } else {
        l.take(80) + "..."@
    }
}

/// The report of a line that failed to parse: its 1-based number, the label
/// of its classified kind, the inner description, and its quoted copy.
pub open spec fn line_error_message(s: Seq<char>, ln: int, inner: Seq<char>) -> Seq<char> {
    let l = crate::strutil::trim_spec(line_views(s)[ln]);
    "line "@ + crate::strutil::dec_spec(ln + 1) + ": trying to parse a "@ + describe_spec(
        classify_line(l),
    ) + " line: "@ + inner + " \n  "@ + truncated_line(l)
}

/// All declarative fields of the table are empty.
pub open spec fn table_empty(rt: &Ruletable) -> bool {
    &&& rt.edges_spec().len() == 0
    &&& rt.colors_spec().len() == 0
    &&& rt.sets_spec().len() == 0
    &&& rt.start_spec().len() == 0
    &&& rt.output_spec().len() == 0
    &&& rt.rules_spec().len() == 0
}

/// The effect of one successfully parsed line on the table being built, per
/// its classified kind: blank and comment lines change nothing, the three
/// name declarations wholly replace their map, start and output
/// declarations append their expansion, and a rule line appends one rule.
pub open spec fn line_step(pre: Ruletable, post: Ruletable, line: Seq<char>) -> bool {
    match classify_line(line) {
        LineType::Empty | LineType::Comment => table_unchanged(&pre, &post),
        LineType::Edges => {
            let rest = crate::strutil::trim_spec(line.skip("EDGES"@.len() as int));
            &&& edges_decl_spec(rest) is Some
            &&& Option::Some(crate::strutil::pair_views_of(post.edges_spec()))
                == edges_decl_spec(rest)
            &&& post.colors_spec() == pre.colors_spec()
            &&& post.sets_spec() == pre.sets_spec()
            &&& post.start_spec() == pre.start_spec()
            &&& post.output_spec() == pre.output_spec()
            &&& post.rules_spec() == pre.rules_spec()
        },
        LineType::Colors => {
            let rest = crate::strutil::trim_spec(line.skip("COLORS"@.len() as int));
            &&& labels_ok(rest)
            &&& crate::strutil::views_of(post.colors_spec()) == crate::strutil::tokenize_spec(
                rest, ","@,
            )
            &&& post.edges_spec() == pre.edges_spec()
            &&& post.sets_spec() == pre.sets_spec()
            &&& post.start_spec() == pre.start_spec()
            &&& post.output_spec() == pre.output_spec()
            &&& post.rules_spec() == pre.rules_spec()
        },
        LineType::Sets => {
            let rest = crate::strutil::trim_spec(line.skip("SETS"@.len() as int));
            &&& labels_ok(rest)
            &&& crate::strutil::views_of(post.sets_spec()) == crate::strutil::tokenize_spec(
                rest, ","@,
            )
            &&& post.edges_spec() == pre.edges_spec()
            &&& post.colors_spec() == pre.colors_spec()
            &&& post.start_spec() == pre.start_spec()
            &&& post.output_spec() == pre.output_spec()
            &&& post.rules_spec() == pre.rules_spec()
        },
        LineType::Start => {
            let rest = crate::strutil::trim_spec(line.skip("START"@.len() as int));
            &&& start_decl_spec(&pre, rest) is Some
            &&& post.start_spec() == pre.start_spec() + start_decl_spec(&pre, rest)->Some_0
            &&& post.edges_spec() == pre.edges_spec()
            &&& post.colors_spec() == pre.colors_spec()
            &&& post.sets_spec() == pre.sets_spec()
            &&& post.output_spec() == pre.output_spec()
            &&& post.rules_spec() == pre.rules_spec()
        },
        LineType::Output => {
            let rest = crate::strutil::trim_spec(line.skip("OUTPUT"@.len() as int));
            &&& output_decl_spec(&pre, rest) is Some
            &&& post.output_spec() == pre.output_spec() + output_decl_spec(&pre, rest)->Some_0
            &&& post.edges_spec() == pre.edges_spec()
            &&& post.colors_spec() == pre.colors_spec()
            &&& post.sets_spec() == pre.sets_spec()
            &&& post.start_spec() == pre.start_spec()
            &&& post.rules_spec() == pre.rules_spec()
        },
        LineType::Rule => {
            &&& rule_line_ok(&pre, line)
            &&& post.rules_spec() == pre.rules_spec().push(post.rules_spec().last())
            &&& rule_matches_line(&pre, line, post.rules_spec().last())
            &&& post.edges_spec() == pre.edges_spec()
            &&& post.colors_spec() == pre.colors_spec()
            &&& post.sets_spec() == pre.sets_spec()
            &&& post.start_spec() == pre.start_spec()
            &&& post.output_spec() == pre.output_spec()
        },
    }
}

/// A compiled table arose from its text by a chain of per-line steps: from
/// the empty table, each trimmed line applied in order, ending in a table
/// whose declarative fields are the result's.
pub open spec fn compiles_via(s: Seq<char>, chain: Seq<Ruletable>, rt: Ruletable) -> bool {
    &&& chain.len() == line_views(s).len() + 1
    &&& table_empty(&chain[0])
    &&& forall|ln: int|
        0 <= ln < line_views(s).len() ==> line_step(
            chain[ln], chain[ln + 1], crate::strutil::trim_spec(#[trigger] line_views(s)[ln]),
        )
    &&& table_unchanged(&chain[chain.len() - 1], &rt)
}

/// Every line of the text is blank or a comment after trimming.
pub open spec fn all_lines_trivial(s: Seq<char>) -> bool {
    forall|q: int|
        0 <= q < line_views(s).len() ==> {
            let lt = classify_line(crate::strutil::trim_spec(#[trigger] line_views(s)[q]));
            lt is Empty || lt is Comment
        }
}

/// The pieces of a text between newline characters.
pub open spec fn line_views(s: Seq<char>) -> Seq<Seq<char>> {
    crate::strutil::split_spec(s, seq!['\n'])
}

/// The lines of a text, split at newline characters, as `line_views` says.
#[verifier::loop_isolation(false)]
fn split_lines(input: &str) -> (r: Vec<String>)
    ensures
        r@.len() == line_views(input@).len(),
        forall|q: int| 0 <= q < r@.len() ==> (#[trigger] r@[q])@ == line_views(input@)[q],
{
    let len = input.unicode_len();
    let mut r: Vec<String> = Vec::new();
    let mut start: usize = 0;
    let mut i: usize = 0;
    let ghost mut done: Seq<Seq<char>> = seq![];
    while i < len
        invariant
            start <= i <= len,
            len == input@.len(),
            line_views(input@) == done + crate::strutil::split_from(
                input@, seq!['\n'], i as int, start as int,
            ),
            r@.len() == done.len(),
            forall|q: int| 0 <= q < done.len() ==> (#[trigger] r@[q])@ == done[q],
        decreases len - i,
    {
        if input.get_char(i) == '\n' {
            let piece = input.substring_char(start, i);
            r.push(piece.to_owned());
            proof {
                assert(crate::strutil::matches_at(input@, seq!['\n'], i as int)) by {
                    assert(input@.subrange(i as int, i + 1) =~= seq!['\n']);
                }
                done = done + seq![input@.subrange(start as int, i as int)];
            }
            start = i + 1;
        } else {
            proof {
                assert(!crate::strutil::matches_at(input@, seq!['\n'], i as int)) by {
                    assert(input@.subrange(i as int, i + 1)[0] == input@[i as int]);
                }
            }
        }
        i = i + 1;
    }
    let piece = input.substring_char(start, len);
    r.push(piece.to_owned());
    proof {
        done = done + seq![input@.subrange(start as int, len as int)];
        assert(line_views(input@) == done);
    }
    r
}

impl Ruletable {
    /// An empty table: no names, no rules, empty dispatch tables.
    fn new_empty() -> (rt: Ruletable)
        ensures
            rt.rules_spec().len() == 0,
            rt.edges_spec().len() == 0,
            rt.colors_spec().len() == 0,
            rt.sets_spec().len() == 0,
            rt.start_spec().len() == 0,
            rt.output_spec().len() == 0,
    {
        Ruletable {
            colors: Vec::new(),
            edges: Vec::new(),
            sets: Vec::new(),
            start: Vec::new(),
            output: Vec::new(),
            rules: Vec::new(),
            to_rulenum: Array4D::new(0, 0, 0, 0, usize::MAX),
            to_color: Array3D::new_empty_lists(0, 0, 0),
        }
    }

    /// Classifies a trimmed line, as `classify_line` says.
    fn id_line(line: &str) -> (r: LineType)
        ensures
            r == classify_line(line@),
    {
        if line.unicode_len() == 0 {
            return LineType::Empty;
        }
        if crate::strutil::starts_with(line, "#") {
            return LineType::Comment;
        }
        if crate::strutil::starts_with(line, "EDGES") {
            return LineType::Edges;
        }
        if crate::strutil::starts_with(line, "COLORS") {
            return LineType::Colors;
        }
        if crate::strutil::starts_with(line, "SETS") {
            return LineType::Sets;
        }
        if crate::strutil::starts_with(line, "START") {
            return LineType::Start;
        }
        if crate::strutil::starts_with(line, "OUTPUT") {
            return LineType::Output;
        }
        LineType::Rule
    }

    /// The text after a declaration keyword, trimmed.
    fn get_remaining<'a>(line: &'a str, identifier: &str) -> (r: &'a str)
        requires
            is_prefix_of(identifier@, line@),
        ensures
            r@ == crate::strutil::trim_spec(line@.skip(identifier@.len() as int)),
    {
        let plen = identifier.unicode_len();
        let len = line.unicode_len();
        let rest = line.substring_char(plen, len);
        crate::strutil::trim(rest)
    }

    /// Parses a comma-separated name list; an empty or repeated name is an
    /// error.
    #[verifier::loop_isolation(false)]
    fn parse_labels(s: &str, description: &str) -> (r: Result<Vec<String>, ParseRuletableError>)
        ensures
            ({
                let toks = crate::strutil::tokenize_spec(s@, ","@);
                &&& r matches Ok(v) ==> crate::strutil::views_of(v@) == toks
                &&& (r is Ok <==> (forall|a: int|
                    0 <= a < toks.len() ==> (#[trigger] toks[a]).len() > 0) && forall|
                    a: int, b: int,
                |
                    0 <= a < b < toks.len() ==> toks[a] != toks[b])
            }),
    {
        proof {
            reveal_strlit(",");
        }
        let tokens = crate::strutil::tokenize_with_delimiter(s, ",");
        let ghost toks = crate::strutil::tokenize_spec(s@, ","@);
        let mut result: Vec<String> = Vec::new();
        let mut i: usize = 0;
        while i < tokens.len()
            invariant
                i <= tokens@.len(),
                crate::strutil::views_of(result@) =~= toks.take(i as int),
                forall|a: int| 0 <= a < i ==> (#[trigger] toks[a]).len() > 0,
                forall|a: int, b: int| 0 <= a < b < i ==> toks[a] != toks[b],
            decreases tokens@.len() - i,
        {
            let t = tokens[i].as_str();
            if t.unicode_len() == 0 {
                proof {
                    assert(toks[i as int].len() == 0);
                }
                let mut m = String::from_str("found empty string, expected a ");
                m.append(description);
                return Err(ParseRuletableError::new(m));
            }
            match crate::strutil::find_in_names(&result, t) {
                Some(_) => {
                    proof {
                        crate::strutil::lemma_find_from_bounds(
                            crate::strutil::views_of(result@), t@, 0,
                        );
                        let d = crate::strutil::find_name(
                            crate::strutil::views_of(result@), t@,
                        )->Some_0;
                        assert(crate::strutil::views_of(result@)[d] == toks[d]);
                        assert(0 <= d < i as int && toks[d] == toks[i as int]);
                    }
                    let mut m = String::from_str("found '");
                    m.append(t);
                    m.append("' twice");
                    return Err(ParseRuletableError::new(m));
                },
                None => {
                    proof {
                        crate::strutil::lemma_find_from_none(
                            crate::strutil::views_of(result@), t@, 0,
                        );
                    }
                },
            }
            let ghost pre_views = crate::strutil::views_of(result@);
            result.push(t.to_owned());
            proof {
                assert(crate::strutil::views_of(result@) =~= toks.take(i + 1));
                assert forall|a: int, b: int| 0 <= a < b < i + 1 implies toks[a] != toks[b] by {
                    if b == i as int && toks[a] == toks[b] {
                        assert(pre_views[a] == toks[a]);
                    }
                }
            }
            i = i + 1;
        }
        proof {
            assert(toks.take(toks.len() as int) =~= toks);
        }
        Ok(result)
    }

    /// Parses the edge declaration: comma-separated groups of one name (a
    /// symmetric edge) or two names (a forward/backward pair), assigning ids
    /// in declaration order.
    #[verifier::loop_isolation(false)]
    fn parse_edges(s: &str) -> (r: Result<Vec<(String, (usize, usize))>, ParseRuletableError>)
        ensures
            r matches Ok(v) ==> Option::Some(crate::strutil::pair_views_of(v@))
                == edges_decl_spec(s@) && edge_ids_coupled(v@),
            r is Ok <==> edges_decl_spec(s@) is Some,
    {
        proof {
            reveal_strlit(",");
        }
        let tokens = crate::strutil::tokenize_with_delimiter(s, ",");
        let ghost groups = edge_groups_spec(s@);
        let mut result: Vec<(String, (usize, usize))> = Vec::new();
        let mut i: usize = 0;
        while i < tokens.len()
            invariant
                i <= tokens@.len(),
                groups.len() == tokens@.len(),
                edge_ids_coupled(result@),
                Option::Some(crate::strutil::pair_views_of(result@)) == edges_decl_fold(
                    groups, i as int,
                ),
            decreases tokens@.len() - i,
        {
            let group = crate::strutil::tokenize_at_whitespace(tokens[i].as_str());
            proof {
                assert(groups[i as int] == crate::strutil::ws_split_spec(tokens@[i as int]@));
                assert forall|q: int| 0 <= q < group@.len() implies (#[trigger]
                group@[q])@ == groups[i as int][q] by {}
            }
            if group.len() == 0 || group.len() > 2 {
                proof {
                    assert(edges_decl_fold(groups, i + 1) is None);
                    lemma_edges_fold_none(groups, i + 1, groups.len() as int);
                }
                if group.len() > 2 {
                    let mut m = String::from_str(
                        "found more than two whitespace separated edge strings, expected one string for a symmetric edge or two strings for an asymmetric edge: ",
                    );
                    m.append(tokens[i].as_str());
                    return Err(ParseRuletableError::new(m));
                }
                return Err(ParseRuletableError::new(String::from_str(
                    "found empty string, expected an edge",
                )));
            }
            let cnt = result.len();
            let e0 = group[0].as_str();
            if crate::strutil::find_in_pairs(&result, e0).is_some() {
                proof {
                    assert(edges_decl_fold(groups, i + 1) is None);
                    lemma_edges_fold_none(groups, i + 1, groups.len() as int);
                }
                let mut m = String::from_str("found '");
                m.append(e0);
                m.append("' twice");
                return Err(ParseRuletableError::new(m));
            }
            if group.len() == 1 {
                // a symmetric edge: one id standing for both directions
                let ghost pre = result@;
                result.push((e0.to_owned(), (cnt, cnt)));
                proof {
                    lemma_edge_ids_extend_one(pre, result@);
                    assert(crate::strutil::pair_views_of(result@)
                        =~= crate::strutil::pair_views_of(pre).push((
                        groups[i as int][0], (cnt, cnt),
                    )));
                }
            } else {
                // a forward/backward pair: two coupled ids
                let next = match cnt.checked_add(1) {
                    Some(v) => v,
                    None => {
                        proof {
                            assert(edges_decl_fold(groups, i + 1) is None);
                            lemma_edges_fold_none(groups, i + 1, groups.len() as int);
                        }
                        return Err(ParseRuletableError::new(String::from_str(
                            "too many edge names",
                        )));
                    },
                };
                let ghost pre = result@;
                result.push((e0.to_owned(), (cnt, next)));
                proof {
                    assert(crate::strutil::pair_views_of(result@)
                        =~= crate::strutil::pair_views_of(pre).push((
                        groups[i as int][0], (cnt, next),
                    )));
                }
                let e1 = group[1].as_str();
                if crate::strutil::find_in_pairs(&result, e1).is_some() {
                    proof {
                        assert(edges_decl_fold(groups, i + 1) is None);
                        lemma_edges_fold_none(groups, i + 1, groups.len() as int);
                    }
                    let mut m = String::from_str("found '");
                    m.append(e1);
                    m.append("' twice");
                    return Err(ParseRuletableError::new(m));
                }
                let ghost pre1 = result@;
                result.push((e1.to_owned(), (next, cnt)));
                proof {
                    lemma_edge_ids_extend_pair(pre, result@);
                    assert(crate::strutil::pair_views_of(result@)
                        =~= crate::strutil::pair_views_of(pre1).push((
                        groups[i as int][1], (next, cnt),
                    )));
                }
            }
            i = i + 1;
        }
        proof {
            assert(groups.len() as int == groups.len());
        }
        Ok(result)
    }

    /// Resolves one edge name to its forward id.
    fn find_edge(&self, s: &str) -> (r: Result<usize, ParseRuletableError>)
        ensures
            match crate::strutil::find_pair(
                crate::strutil::pair_views_of(self.edges_spec()), s@,
            ) {
                Option::Some(k) => r matches Ok(id) && id == self.edges_spec()[k].1.0,
                Option::None => r is Err,
            },
    {
        match self.get_edge_ids(s) {
            Some(pr) => Ok(pr.0),
            None => {
                let mut m = String::from_str("could not find edge '");
                m.append(s);
                m.append("', are you sure you defined it?");
                Err(ParseRuletableError::new(m))
            },
        }
    }

    /// Resolves one color name to its id.
    fn find_color(&self, s: &str) -> (r: Result<usize, ParseRuletableError>)
        ensures
            match crate::strutil::find_name(
                crate::strutil::views_of(self.colors_spec()), s@,
            ) {
                Option::Some(k) => r matches Ok(id) && id as int == k,
                Option::None => r is Err,
            },
    {
        // the color count is read once: it bounds every id a lookup returns
        let _ = self.colors.len();
        match self.get_color_id(s) {
            Some(id) => {
                proof {
                    crate::strutil::lemma_find_from_bounds(
                        crate::strutil::views_of(self.colors_spec()), s@, 0,
                    );
                    assert(crate::strutil::views_of(self.colors_spec()).len()
                        == self.colors_spec().len());
                }
                Ok(id)
            },
            None => {
                let mut m = String::from_str("could not find color '");
                m.append(s);
                m.append("', are you sure you defined it?");
                Err(ParseRuletableError::new(m))
            },
        }
    }

    /// Resolves a comma-separated list of set names to their ids.
    #[verifier::loop_isolation(false)]
    fn find_sets(&self, s: &str) -> (r: Result<Vec<usize>, ParseRuletableError>)
        ensures
            ({
                let toks = crate::strutil::tokenize_spec(s@, ","@);
                &&& (r matches Ok(v) ==> Option::Some(v@) == sets_list_fold(
                    self, toks, toks.len() as int,
                ) && forall|k: int|
                    0 <= k < v@.len() ==> (#[trigger] v@[k]) < self.num_sets_spec())
                &&& (r is Ok <==> sets_list_fold(self, toks, toks.len() as int) is Some)
            }),
    {
        proof {
            reveal_strlit(",");
        }
        let tokens = crate::strutil::tokenize_with_delimiter(s, ",");
        let ghost toks = crate::strutil::tokenize_spec(s@, ","@);
        let num = self.num_sets();
        let mut sets: Vec<usize> = Vec::new();
        let mut i: usize = 0;
        while i < tokens.len()
            invariant
                i <= tokens@.len(),
                toks.len() == tokens@.len(),
                forall|k: int| 0 <= k < sets@.len() ==> (#[trigger] sets@[k]) < num,
                num == self.num_sets_spec(),
                Option::Some(sets@) == sets_list_fold(self, toks, i as int),
            decreases tokens@.len() - i,
        {
            match self.get_set_id(tokens[i].as_str()) {
                Some(id) => {
                    proof {
                        crate::strutil::lemma_find_from_bounds(
                            crate::strutil::views_of(self.sets_spec()), tokens@[i as int]@, 0,
                        );
                        assert(crate::strutil::views_of(self.sets_spec()).len()
                            == self.sets_spec().len());
                    }
                    sets.push(id);
                },
                None => {
                    proof {
                        assert(sets_list_fold(self, toks, i + 1) is None);
                        lemma_sets_list_fold_none(self, toks, i + 1, toks.len() as int);
                    }
                    let mut m = String::from_str("could not find set '");
                    m.append(tokens[i].as_str());
                    m.append("', are you sure you defined it?");
                    return Err(ParseRuletableError::new(m));
                },
            }
            i = i + 1;
        }
        Ok(sets)
    }

    /// Splits one edge-color pattern: an edge pattern optionally followed by
    /// one bracketed color list; unbalanced or repeated brackets are errors.
    fn parse_edge_color_patterns(&self, s: &str) -> (r: Result<
        (Pattern, Pattern),
        ParseRuletableError,
    >)
        ensures
            r matches Ok(p) ==> edge_color_patterns_spec(self, s@) == Option::Some((
                pattern_model(p.0),
                pattern_model(p.1),
            )),
            r is Ok <==> edge_color_patterns_spec(self, s@) is Some,
    {
        let len = s.unicode_len();
        let mut num_open: usize = 0;
        let mut num_closed: usize = 0;
        let mut open_pos: usize = 0;
        let mut i: usize = 0;
        while i < len
            invariant
                i <= len,
                len == s@.len(),
                num_open <= i,
                num_closed <= i,
                num_open == char_count(s@, '[', i as int),
                num_closed == char_count(s@, ']', i as int),
                num_open > 0 ==> open_pos < i && s@[open_pos as int] == '[' && find_char_from(
                    s@, '[', 0,
                ) == Option::Some(open_pos as int),
                num_open == 0 ==> find_char_from(s@, '[', 0) == find_char_from(
                    s@, '[', i as int,
                ),
            decreases len - i,
        {
            let c = s.get_char(i);
            if c == '[' {
                if num_open == 0 {
                    open_pos = i;
                }
                num_open = num_open + 1;
            } else if c == ']' {
                num_closed = num_closed + 1;
            }
            i = i + 1;
        }
        if num_open != num_closed {
            return Err(ParseRuletableError::new(String::from_str(
                "opening '[' and closing ']' braces are not matching",
            )));
        }
        if num_open > 1 {
            return Err(ParseRuletableError::new(String::from_str(
                "more than one pair of braces '[' ']' found, expected none when colors are not specified or one with comma separated colors",
            )));
        }
        if num_open == 0 {
            proof {
                reveal_strlit("");
                assert(""@ =~= Seq::<char>::empty());
                assert(bracket_split_spec(s@) == Option::Some((s@, ""@)));
            }
            let edge_pattern = self.parse_edge_pattern(s)?;
            let color_pattern = self.parse_color_pattern("")?;
            return Ok((edge_pattern, color_pattern));
        }
        if len == 0 || s.get_char(len - 1) != ']' {
            return Err(ParseRuletableError::new(String::from_str(
                "last non-whitespace character is not a closing brace ']', expected brace to close color list",
            )));
        }
        proof {
            assert(s@[open_pos as int] != s@[len - 1]);
        }
        let edge_str = s.substring_char(0, open_pos);
        let color_str = s.substring_char(open_pos + 1, len - 1);
        proof {
            assert(bracket_split_spec(s@) == Option::Some((edge_str@, color_str@)));
        }
        let edge_pattern = self.parse_edge_pattern(edge_str)?;
        let color_pattern = self.parse_color_pattern(color_str)?;
        Ok((edge_pattern, color_pattern))
    }

    /// Parses an edge pattern: the wildcard, a single name, or a
    /// comma-separated list of names.
    #[verifier::loop_isolation(false)]
    fn parse_edge_pattern(&self, s: &str) -> (r: Result<Pattern, ParseRuletableError>)
        ensures
            r matches Ok(p) ==> edge_pattern_spec(self, s@) == Option::Some(pattern_model(p)),
            r is Ok <==> edge_pattern_spec(self, s@) is Some,
    {
        proof {
            reveal_strlit(",");
        }
        let tokens = crate::strutil::tokenize_with_delimiter(s, ",");
        let ghost toks = crate::strutil::tokenize_spec(s@, ","@);
        if tokens.len() == 1 {
            let t = tokens[0].as_str();
            if crate::strutil::str_eq(t, "...") {
                return Ok(Pattern::All);
            }
            let id = self.find_edge(t)?;
            return Ok(Pattern::Single(id));
        }
        let mut edge_list: Vec<usize> = Vec::new();
        let mut i: usize = 0;
        while i < tokens.len()
            invariant
                i <= tokens@.len(),
                toks.len() == tokens@.len(),
                toks.len() != 1,
                Option::Some(edge_list@) == edge_list_fold(self, toks, i as int),
            decreases tokens@.len() - i,
        {
            let t = tokens[i].as_str();
            if crate::strutil::str_eq(t, "...") {
                proof {
                    assert(edge_list_fold(self, toks, i + 1) is None);
                    lemma_edge_list_fold_none(self, toks, i + 1, toks.len() as int);
                }
                return Err(ParseRuletableError::new(String::from_str(
                    "found edge wildcard '...' and other edge strings, if you want to match all strings, keep only the wildcard",
                )));
            }
            let id = match self.find_edge(t) {
                Ok(id) => id,
                Err(e) => {
                    proof {
                        assert(edge_list_fold(self, toks, i + 1) is None);
                        lemma_edge_list_fold_none(self, toks, i + 1, toks.len() as int);
                    }
                    return Err(e);
                },
            };
            edge_list.push(id);
            i = i + 1;
        }
        Ok(Pattern::Many(edge_list))
    }

    /// Parses a color pattern: absence or the wildcard mean every color, else
    /// one name or a comma-separated list of names.
    #[verifier::loop_isolation(false)]
    fn parse_color_pattern(&self, s: &str) -> (r: Result<Pattern, ParseRuletableError>)
        ensures
            r matches Ok(p) ==> color_pattern_spec(self, s@) == Option::Some(pattern_model(p)),
            r is Ok <==> color_pattern_spec(self, s@) is Some,
    {
        let trimmed = crate::strutil::trim(s);
        if s.unicode_len() == 0 || crate::strutil::str_eq(trimmed, "...") {
            return Ok(Pattern::All);
        }
        proof {
            reveal_strlit(",");
        }
        let tokens = crate::strutil::tokenize_with_delimiter(s, ",");
        let ghost toks = crate::strutil::tokenize_spec(s@, ","@);
        if tokens.len() == 1 {
            let id = self.find_color(tokens[0].as_str())?;
            return Ok(Pattern::Single(id));
        }
        let mut color_list: Vec<usize> = Vec::new();
        let mut i: usize = 0;
        while i < tokens.len()
            invariant
                i <= tokens@.len(),
                toks.len() == tokens@.len(),
                toks.len() != 1,
                s@.len() != 0,
                crate::strutil::trim_spec(s@) != "..."@,
                Option::Some(color_list@) == color_list_fold(self, toks, i as int),
            decreases tokens@.len() - i,
        {
            let id = match self.find_color(tokens[i].as_str()) {
                Ok(id) => id,
                Err(e) => {
                    proof {
                        assert(color_list_fold(self, toks, i + 1) is None);
                        lemma_color_list_fold_none(self, toks, i + 1, toks.len() as int);
                    }
                    return Err(e);
                },
            };
            color_list.push(id);
            i = i + 1;
        }
        Ok(Pattern::Many(color_list))
    }

    /// Parses one start declaration: an edge-color pattern, the keyword
    /// `AT`, and set names; it expands to the cross product of the matched
    /// edges, colors and sets.
    #[verifier::loop_isolation(false)]
    fn parse_start(&self, s: &str) -> (r: Result<
        Vec<(usize, usize, usize)>,
        ParseRuletableError,
    >)
        ensures
            r matches Ok(v) ==> start_decl_spec(self, s@) == Option::Some(v@) && forall|k: int|
                0 <= k < v@.len() ==> (#[trigger] v@[k]).0 < self.num_sets_spec(),
            r is Ok <==> start_decl_spec(self, s@) is Some,
    {
        proof {
            reveal_strlit(" AT ");
        }
        let tokens = crate::strutil::tokenize_with_delimiter(s, " AT ");
        if tokens.len() < 2 {
            return Err(ParseRuletableError::new(String::from_str(
                "did not find space-separated keyword 'AT', expected one occurence of 'AT' followed by comma-separated sets",
            )));
        }
        if tokens.len() > 2 {
            return Err(ParseRuletableError::new(String::from_str(
                "found space-separated keyword 'AT' more than once, expected one occurence of 'AT' followed by a list of sets",
            )));
        }
        let patterns = self.parse_edge_color_patterns(tokens[0].as_str())?;
        let edges = patterns.0.convert_to_vec(self.num_edges());
        let colors = patterns.1.convert_to_vec(self.num_colors());
        let sets = self.find_sets(tokens[1].as_str())?;
        proof {
            lemma_pattern_vec_model(patterns.0, self.num_edges_spec());
            lemma_pattern_vec_model(patterns.1, self.num_colors_spec());
        }
        let mut start: Vec<(usize, usize, usize)> = Vec::new();
        let mut a: usize = 0;
        while a < sets.len()
            invariant
                a <= sets@.len(),
                forall|k: int| 0 <= k < sets@.len() ==> (#[trigger] sets@[k])
                    < self.num_sets_spec(),
                forall|k: int| 0 <= k < start@.len() ==> (#[trigger] start@[k]).0
                    < self.num_sets_spec(),
                start@ == start_cross(sets@, a as int, edges@, colors@),
            decreases sets@.len() - a,
        {
            let mut b: usize = 0;
            while b < edges.len()
                invariant
                    a < sets@.len(),
                    b <= edges@.len(),
                    forall|k: int| 0 <= k < sets@.len() ==> (#[trigger] sets@[k])
                        < self.num_sets_spec(),
                    forall|k: int| 0 <= k < start@.len() ==> (#[trigger] start@[k]).0
                        < self.num_sets_spec(),
                    start@ == start_cross(sets@, a as int, edges@, colors@)
                        + start_edges_block(sets@[a as int], edges@, b as int, colors@),
                decreases edges@.len() - b,
            {
                let mut c: usize = 0;
                while c < colors.len()
                    invariant
                        a < sets@.len(),
                        b < edges@.len(),
                        c <= colors@.len(),
                        forall|k: int| 0 <= k < sets@.len() ==> (#[trigger] sets@[k])
                            < self.num_sets_spec(),
                        forall|k: int| 0 <= k < start@.len() ==> (#[trigger] start@[k]).0
                            < self.num_sets_spec(),
                        start@ == start_cross(sets@, a as int, edges@, colors@)
                            + start_edges_block(sets@[a as int], edges@, b as int, colors@)
                            + start_colors_row(
                            sets@[a as int], edges@[b as int], colors@, c as int,
                        ),
                    decreases colors@.len() - c,
                {
                    start.push((sets[a], edges[b], colors[c]));
                    c = c + 1;
                }
                proof {
                    assert(start@ =~= start_cross(sets@, a as int, edges@, colors@)
                        + start_edges_block(sets@[a as int], edges@, b + 1, colors@));
                }
                b = b + 1;
            }
            proof {
                assert(start@ =~= start_cross(sets@, a + 1, edges@, colors@));
            }
            a = a + 1;
        }
        Ok(start)
    }

    /// Parses one output declaration: an edge-color pattern expanding to the
    /// cross product of the matched edges and colors.
    #[verifier::loop_isolation(false)]
    fn parse_output(&self, s: &str) -> (r: Result<Vec<(usize, usize)>, ParseRuletableError>)
        ensures
            r matches Ok(v) ==> output_decl_spec(self, s@) == Option::Some(v@),
            r is Ok <==> output_decl_spec(self, s@) is Some,
    {
        let patterns = self.parse_edge_color_patterns(s)?;
        let edges = patterns.0.convert_to_vec(self.num_edges());
        let colors = patterns.1.convert_to_vec(self.num_colors());
        proof {
            lemma_pattern_vec_model(patterns.0, self.num_edges_spec());
            lemma_pattern_vec_model(patterns.1, self.num_colors_spec());
        }
        let mut output: Vec<(usize, usize)> = Vec::new();
        let mut b: usize = 0;
        while b < edges.len()
            invariant
                b <= edges@.len(),
                output@ == output_cross(edges@, b as int, colors@),
            decreases edges@.len() - b,
        {
            let mut c: usize = 0;
            while c < colors.len()
                invariant
                    b < edges@.len(),
                    c <= colors@.len(),
                    output@ == output_cross(edges@, b as int, colors@) + output_colors_row(
                        edges@[b as int], colors@, c as int,
                    ),
                decreases colors@.len() - c,
            {
                output.push((edges[b], colors[c]));
                c = c + 1;
            }
            proof {
                assert(output@ =~= output_cross(edges@, b + 1, colors@));
            }
            b = b + 1;
        }
        Ok(output)
    }

    /// Parses one rule line: two `|` separators delimiting the previous
    /// pattern, the next pattern and the guard expression.
    fn parse_rule(&self, s: &str) -> (r: Result<Rule, ParseRuletableError>)
        ensures
            ({
                let toks = crate::strutil::tokenize_spec(s@, "|"@);
                &&& (r matches Ok(rule) ==> toks.len() == 3 && edge_color_patterns_spec(
                    self, toks[0],
                ) == Option::Some((
                    pattern_model(rule.case.prev_edge),
                    pattern_model(rule.case.prev_color),
                )) && edge_color_patterns_spec(self, toks[1]) == Option::Some((
                    pattern_model(rule.case.next_edge),
                    pattern_model(rule.case.next_color),
                )) && crate::expression::from_string_spec(
                    toks[2], crate::strutil::views_of(self.sets_spec()),
                ) == Option::Some(crate::expression::expr_model(rule.expression))
                    && expr_valid(rule.expression) && expr_sets_below(
                    rule.expression, self.num_sets_spec() as int,
                ))
                &&& (r is Ok <==> toks.len() == 3 && edge_color_patterns_spec(
                    self, toks[0],
                ) is Some && edge_color_patterns_spec(self, toks[1]) is Some
                    && crate::expression::from_string_spec(
                    toks[2], crate::strutil::views_of(self.sets_spec()),
                ) is Some)
            }),
    {
        proof {
            reveal_strlit("|");
        }
        let tokens = crate::strutil::tokenize_with_delimiter(s, "|");
        if tokens.len() != 3 {
            return Err(ParseRuletableError::new(String::from_str(
                "expected exactly two occurences of '|' delimiting previous state, next state and expression",
            )));
        }
        let prev = self.parse_edge_color_patterns(tokens[0].as_str())?;
        let next = self.parse_edge_color_patterns(tokens[1].as_str())?;
        let case = Case {
            prev_edge: prev.0,
            prev_color: prev.1,
            next_edge: next.0,
            next_color: next.1,
        };
        let expression = match Expression::from_string(tokens[2].as_str(), &self.sets) {
            Ok(e) => e,
            Err(err) => {
                let mut m = String::from_str("Error parsing expression: ");
                m.append(err.message());
                return Err(ParseRuletableError::new(m));
            },
        };
        // the set count is read once so that its machine-word bound is on
        // record for the id-range clause
        let _ = self.sets.len();
        Ok(Rule { case, expression })
    }

    /// Dispatches one classified line into the table being built, as the
    /// per-kind clauses say: a blank or comment line changes nothing; an
    /// `EDGES`/`COLORS`/`SETS` line wholly replaces its name map; a `START`/
    /// `OUTPUT` line appends its expansion; a rule line appends one rule.
    /// On an error the table is left entirely unchanged.
    fn parse_line(&mut self, line: &str, line_type: LineType) -> (r: Result<
        (),
        ParseRuletableError,
    >)
        requires
            line_type == classify_line(line@),
            rules_valid(old(self).rules_spec()),
        ensures
            rules_valid(final(self).rules_spec()),
            edge_ids_coupled(old(self).edges_spec()) ==> edge_ids_coupled(
                final(self).edges_spec(),
            ),
            r is Err ==> table_unchanged(old(self), final(self)),
            match line_type {
                LineType::Empty | LineType::Comment => r is Ok && table_unchanged(
                    old(self), final(self),
                ),
                LineType::Edges => {
                    let rest = crate::strutil::trim_spec(line@.skip("EDGES"@.len() as int));
                    &&& (r is Ok <==> edges_decl_spec(rest) is Some)
                    &&& (r is Ok ==> Option::Some(crate::strutil::pair_views_of(
                        final(self).edges_spec(),
                    )) == edges_decl_spec(rest) && final(self).colors_spec() == old(self).colors_spec() && final(self).sets_spec() == old(self).sets_spec()
                        && final(self).start_spec() == old(self).start_spec() && final(self).output_spec() == old(self).output_spec() && final(self).rules_spec()
                        == old(self).rules_spec())
                },
                LineType::Colors => {
                    let rest = crate::strutil::trim_spec(line@.skip("COLORS"@.len() as int));
                    &&& (r is Ok <==> labels_ok(rest))
                    &&& (r is Ok ==> crate::strutil::views_of(final(self).colors_spec())
                        == crate::strutil::tokenize_spec(rest, ","@) && final(self).edges_spec() == old(self).edges_spec() && final(self).sets_spec() == old(self).sets_spec() && final(self).start_spec() == old(self).start_spec()
                        && final(self).output_spec() == old(self).output_spec() && final(self).rules_spec() == old(self).rules_spec())
                },
                LineType::Sets => {
                    let rest = crate::strutil::trim_spec(line@.skip("SETS"@.len() as int));
                    &&& (r is Ok <==> labels_ok(rest))
                    &&& (r is Ok ==> crate::strutil::views_of(final(self).sets_spec())
                        == crate::strutil::tokenize_spec(rest, ","@) && final(self).edges_spec() == old(self).edges_spec() && final(self).colors_spec()
                        == old(self).colors_spec() && final(self).start_spec() == old(self).start_spec() && final(self).output_spec() == old(self).output_spec()
                        && final(self).rules_spec() == old(self).rules_spec())
                },
                LineType::Start => {
                    let rest = crate::strutil::trim_spec(line@.skip("START"@.len() as int));
                    &&& (r is Ok <==> start_decl_spec(old(self), rest) is Some)
                    &&& (r is Ok ==> final(self).start_spec() == old(self).start_spec()
                        + start_decl_spec(old(self), rest)->Some_0 && final(self).edges_spec()
                        == old(self).edges_spec() && final(self).colors_spec() == old(self).colors_spec() && final(self).sets_spec() == old(self).sets_spec()
                        && final(self).output_spec() == old(self).output_spec() && final(self).rules_spec() == old(self).rules_spec())
                },
                LineType::Output => {
                    let rest = crate::strutil::trim_spec(line@.skip("OUTPUT"@.len() as int));
                    &&& (r is Ok <==> output_decl_spec(old(self), rest) is Some)
                    &&& (r is Ok ==> final(self).output_spec() == old(self).output_spec()
                        + output_decl_spec(old(self), rest)->Some_0 && final(self).edges_spec()
                        == old(self).edges_spec() && final(self).colors_spec() == old(self).colors_spec() && final(self).sets_spec() == old(self).sets_spec()
                        && final(self).start_spec() == old(self).start_spec() && final(self).rules_spec() == old(self).rules_spec())
                },
                LineType::Rule => {
                    &&& (r is Ok <==> rule_line_ok(old(self), line@))
                    &&& (r is Ok ==> final(self).rules_spec() == old(self).rules_spec().push(
                        final(self).rules_spec().last(),
                    ) && rule_matches_line(
                        old(self), line@, final(self).rules_spec().last(),
                    ) && final(self).edges_spec() == old(self).edges_spec() && final(self).colors_spec() == old(self).colors_spec() && final(self).sets_spec()
                        == old(self).sets_spec() && final(self).start_spec() == old(self).start_spec() && final(self).output_spec() == old(self).output_spec())
                },
            },
    {
        match line_type {
            LineType::Empty | LineType::Comment => Ok(()),
            LineType::Edges => {
                proof {
                    assert(is_prefix_of("EDGES"@, line@));
                }
                let rest = Self::get_remaining(line, "EDGES");
                let parsed = Self::parse_edges(rest)?;
                self.edges = parsed;
                Ok(())
            },
            LineType::Colors => {
                proof {
                    assert(is_prefix_of("COLORS"@, line@));
                }
                let rest = Self::get_remaining(line, "COLORS");
                let parsed = Self::parse_labels(rest, "colors")?;
                self.colors = parsed;
                Ok(())
            },
            LineType::Sets => {
                proof {
                    assert(is_prefix_of("SETS"@, line@));
                }
                let rest = Self::get_remaining(line, "SETS");
                let parsed = Self::parse_labels(rest, "sets")?;
                self.sets = parsed;
                Ok(())
            },
            LineType::Start => {
                proof {
                    assert(is_prefix_of("START"@, line@));
                }
                let rest = Self::get_remaining(line, "START");
                let mut parsed = self.parse_start(rest)?;
                self.start.append(&mut parsed);
                Ok(())
            },
            LineType::Output => {
                proof {
                    assert(is_prefix_of("OUTPUT"@, line@));
                }
                let rest = Self::get_remaining(line, "OUTPUT");
                let mut parsed = self.parse_output(rest)?;
                self.output.append(&mut parsed);
                Ok(())
            },
            LineType::Rule => {
                let rule = self.parse_rule(line)?;
                let ghost rules0 = self.rules_spec();
                self.rules.push(rule);
                proof {
                    assert forall|k: int| 0 <= k < self.rules_spec().len()
                        implies expr_valid((#[trigger] self.rules_spec()[k]).expression) by {
                        if k < rules0.len() {
                            assert(self.rules_spec()[k] == rules0[k]);
                        }
                    }
                    assert(self.rules_spec() =~= rules0.push(self.rules_spec().last()));
                }
                Ok(())
            },
        }
    }

    /// Compiles a rule table from its multi-line text: classifies each line
    /// and dispatches it as `parse_line`'s contract says, validates every
    /// recorded id against the final id spaces, and precomputes the dispatch
    /// tables.  `Ok` guarantees a well-formed table with group-coupled edge
    /// ids whose contents arose from the text by the per-line steps of
    /// `compiles_via`; a text of blank and comment lines alone always
    /// compiles, to an empty table.  An error carries the report
    /// `line_error_message` describes, or one of the fixed validation
    /// messages.
    #[verifier::loop_isolation(false)]
    pub fn from_multiline_string(ruletable_str: &str) -> (r: Result<
        Ruletable,
        ReadRuletableError,
    >)
        ensures
            r matches Ok(rt) ==> rt.wf() && edge_ids_coupled(rt.edges_spec()) && exists|
                chain: Seq<Ruletable>,
            | #[trigger] compiles_via(ruletable_str@, chain, rt),
            all_lines_trivial(ruletable_str@) ==> (r matches Ok(rt2)
                && rt2.start_spec().len() == 0 && rt2.output_spec().len() == 0
                && rt2.rules_spec().len() == 0 && rt2.num_edges_spec() == 0),
            r matches Err(re) ==> (re matches ReadRuletableError::ParseError(e) && ((exists|
                ln: int, inner: Seq<char>,
            |
                0 <= ln < line_views(ruletable_str@).len() && e.msg_spec()
                    == #[trigger] line_error_message(ruletable_str@, ln, inner))
                || e.msg_spec() == "internal edge ids are inconsistent"@ || e.msg_spec()
                == "a start declaration refers to an edge, color or set that the final declarations do not provide"@
                || e.msg_spec()
                == "an output declaration refers to an edge or color that the final declarations do not provide"@
                || e.msg_spec()
                == "a rule expression refers to a set that the final declarations do not provide"@
                || e.msg_spec() == "rule table is too large for its dispatch tables"@)),
    {
        let lines = split_lines(ruletable_str);
        let mut rt = Self::new_empty();
        let ghost mut chain: Seq<Ruletable> = seq![rt];
        let mut ln: usize = 0;
        while ln < lines.len()
            invariant
                ln <= lines@.len(),
                rules_valid(rt.rules_spec()),
                edge_ids_coupled(rt.edges_spec()),
                chain.len() == ln + 1,
                table_empty(&chain[0]),
                forall|q: int|
                    0 <= q < ln ==> line_step(
                        chain[q], chain[q + 1],
                        crate::strutil::trim_spec(#[trigger] line_views(ruletable_str@)[q]),
                    ),
                chain[chain.len() - 1] == rt,
                all_lines_trivial(ruletable_str@) ==> rt.edges_spec().len() == 0
                    && rt.colors_spec().len() == 0 && rt.sets_spec().len() == 0
                    && rt.start_spec().len() == 0 && rt.output_spec().len() == 0
                    && rt.rules_spec().len() == 0,
            decreases lines@.len() - ln,
        {
            let line = crate::strutil::trim(lines[ln].as_str());
            let line_type = Self::id_line(line);
            let ghost rt_pre = rt;
            match rt.parse_line(line, line_type) {
                Ok(_) => {
                    proof {
                        assert(line_step(
                            rt_pre, rt,
                            crate::strutil::trim_spec(line_views(ruletable_str@)[ln as int]),
                        ));
                        chain = chain.push(rt);
                        assert forall|q: int| 0 <= q < ln + 1 implies line_step(
                            chain[q], chain[q + 1],
                            crate::strutil::trim_spec(#[trigger] line_views(
                                ruletable_str@,
                            )[q]),
                        ) by {
                            if q < ln {
                                assert(chain[q] == chain.drop_last()[q]);
                                assert(chain[q + 1] == chain.drop_last()[q + 1]);
                            }
                        }
                    }
                },
                Err(err) => {
                    proof {
                        if all_lines_trivial(ruletable_str@) {
                            assert(classify_line(crate::strutil::trim_spec(
                                line_views(ruletable_str@)[ln as int],
                            )) is Empty || classify_line(crate::strutil::trim_spec(
                                line_views(ruletable_str@)[ln as int],
                            )) is Comment);
                        }
                    }
                    let mut m = String::from_str("line ");
                    crate::strutil::append_decimal(&mut m, ln + 1);
                    m.append(": trying to parse a ");
                    m.append(line_type.describe());
                    m.append(" line: ");
                    m.append(err.message());
                    m.append(" \n  ");
                    let llen = line.unicode_len();
                    if llen <= 80 {
                        m.append(line);
                    } else {
                        let prefix = line.substring_char(0, 80);
                        m.append(prefix);
                        m.append("...");
                    }
                    proof {
                        assert(m@ =~= line_error_message(
                            ruletable_str@, ln as int, err.msg_spec(),
                        ));
                    }
                    return Err(ReadRuletableError::ParseError(ParseRuletableError::new(m)));
                },
            }
            ln = ln + 1;
        }
        match rt.validate() {
            Ok(_) => {},
            Err(err) => {
                proof {
                    if all_lines_trivial(ruletable_str@) {
                        assert(rt.edges_spec().len() == 0 && rt.start_spec().len() == 0
                            && rt.output_spec().len() == 0 && rt.rules_spec().len() == 0);
                        assert(forall|k: int| 0 <= k < rt.edges_spec().len()
                            ==> (#[trigger] rt.edges_spec()[k]).1.0 == k
                                && rt.edges_spec()[k].1.1 < rt.num_edges_spec());
                        assert(false);
                    }
                }
                return Err(ReadRuletableError::ParseError(err));
            },
        }
        let ne = rt.num_edges();
        let nc = rt.num_colors();
        let p2 = match ne.checked_mul(nc) {
            Some(v) => v,
            None => {
                proof {
                    if all_lines_trivial(ruletable_str@) {
                        assert(ne == 0);
                        assert(ne * nc == 0) by (nonlinear_arith)
                            requires ne == 0;
                        assert(false);
                    }
                }
                return Err(ReadRuletableError::ParseError(ParseRuletableError::new(
                    String::from_str("rule table is too large for its dispatch tables"),
                )));
            },
        };
        let p3 = match p2.checked_mul(ne) {
            Some(v) => v,
            None => {
                proof {
                    if all_lines_trivial(ruletable_str@) {
                        assert(ne == 0);
                        assert(p2 * ne == 0) by (nonlinear_arith)
                            requires ne == 0;
                        assert(false);
                    }
                }
                return Err(ReadRuletableError::ParseError(ParseRuletableError::new(
                    String::from_str("rule table is too large for its dispatch tables"),
                )));
            },
        };
        let _p4 = match p3.checked_mul(nc) {
            Some(v) => v,
            None => {
                proof {
                    if all_lines_trivial(ruletable_str@) {
                        assert(ne == 0 && p2 == 0 && p3 == 0);
                        assert(p3 * nc == 0) by (nonlinear_arith)
                            requires p3 == 0;
                        assert(false);
                    }
                }
                return Err(ReadRuletableError::ParseError(ParseRuletableError::new(
                    String::from_str("rule table is too large for its dispatch tables"),
                )));
            },
        };
        // each length is read once so that its bound by the machine word is
        // on record for the well-formedness proof
        let _ = rt.edges.len();
        let _ = rt.colors.len();
        let _ = rt.sets.len();
        let _ = rt.rules.len();
        let _ = rt.start.len();
        let _ = rt.output.len();
        rt.precompute();
        proof {
            assert(rt.wf());
            assert(compiles_via(ruletable_str@, chain, rt));
        }
        Ok(rt)
    }

    /// Checks every recorded id against the final id spaces, so that a table
    /// handed out is well formed even when a later declaration replaced an
    /// earlier id space.
    #[verifier::loop_isolation(false)]
    fn validate(&self) -> (r: Result<(), ParseRuletableError>)
        requires
            rules_valid(self.rules_spec()),
        ensures
            r matches Err(e) ==> (e.msg_spec() == "internal edge ids are inconsistent"@
                || e.msg_spec()
                == "a start declaration refers to an edge, color or set that the final declarations do not provide"@
                || e.msg_spec()
                == "an output declaration refers to an edge or color that the final declarations do not provide"@
                || e.msg_spec()
                == "a rule expression refers to a set that the final declarations do not provide"@),
            r is Ok <==> ({
                let ne = self.num_edges_spec();
                let nc = self.num_colors_spec();
                let ns = self.num_sets_spec();
                &&& forall|k: int| 0 <= k < self.edges_spec().len()
                    ==> (#[trigger] self.edges_spec()[k]).1.0 == k
                        && self.edges_spec()[k].1.1 < ne
                &&& forall|k: int| 0 <= k < self.start_spec().len()
                    ==> (#[trigger] self.start_spec()[k]).0 < ns && self.start_spec()[k].1 < ne
                        && self.start_spec()[k].2 < nc
                &&& forall|k: int| 0 <= k < self.output_spec().len()
                    ==> (#[trigger] self.output_spec()[k]).0 < ne
                        && self.output_spec()[k].1 < nc
                &&& forall|k: int| 0 <= k < self.rules_spec().len()
                    ==> expr_valid((#[trigger] self.rules_spec()[k]).expression)
                        && expr_sets_below(self.rules_spec()[k].expression, ns as int)
            }),
    {
        let ne = self.num_edges();
        let nc = self.num_colors();
        let ns = self.num_sets();
        let mut k: usize = 0;
        while k < self.edges.len()
            invariant
                forall|q: int| 0 <= q < k ==> (#[trigger] self.edges_spec()[q]).1.0 == q
                    && self.edges_spec()[q].1.1 < ne,
                ne == self.num_edges_spec(),
            decreases self.edges@.len() - k,
        {
            let pr = self.edges[k].1;
            if pr.0 != k || pr.1 >= ne {
                proof {
                    assert(!((self.edges_spec()[k as int]).1.0 == k as int
                        && self.edges_spec()[k as int].1.1 < ne));
                }
                return Err(ParseRuletableError::new(String::from_str(
                    "internal edge ids are inconsistent",
                )));
            }
            k = k + 1;
        }
        let mut k: usize = 0;
        while k < self.start.len()
            invariant
                forall|q: int| 0 <= q < k ==> (#[trigger] self.start_spec()[q]).0 < ns
                    && self.start_spec()[q].1 < ne && self.start_spec()[q].2 < nc,
                ne == self.num_edges_spec(),
                nc == self.num_colors_spec(),
                ns == self.num_sets_spec(),
            decreases self.start@.len() - k,
        {
            let trip = self.start[k];
            if trip.0 >= ns || trip.1 >= ne || trip.2 >= nc {
                proof {
                    assert(!((self.start_spec()[k as int]).0 < ns && self.start_spec()[
                        k as int].1 < ne && self.start_spec()[k as int].2 < nc));
                }
                return Err(ParseRuletableError::new(String::from_str(
                    "a start declaration refers to an edge, color or set that the final declarations do not provide",
                )));
            }
            k = k + 1;
        }
        let mut k: usize = 0;
        while k < self.output.len()
            invariant
                forall|q: int| 0 <= q < k ==> (#[trigger] self.output_spec()[q]).0 < ne
                    && self.output_spec()[q].1 < nc,
                ne == self.num_edges_spec(),
                nc == self.num_colors_spec(),
            decreases self.output@.len() - k,
        {
            let pr = self.output[k];
            if pr.0 >= ne || pr.1 >= nc {
                proof {
                    assert(!((self.output_spec()[k as int]).0 < ne
                        && self.output_spec()[k as int].1 < nc));
                }
                return Err(ParseRuletableError::new(String::from_str(
                    "an output declaration refers to an edge or color that the final declarations do not provide",
                )));
            }
            k = k + 1;
        }
        let mut k: usize = 0;
        while k < self.rules.len()
            invariant
                forall|q: int| 0 <= q < k ==> expr_sets_below(
                    (#[trigger] self.rules_spec()[q]).expression, ns as int,
                ),
                ns == self.num_sets_spec(),
                rules_valid(self.rules_spec()),
            decreases self.rules@.len() - k,
        {
            if !sets_below_check(&self.rules[k].expression, ns) {
                proof {
                    assert(!(expr_valid((self.rules_spec()[k as int]).expression)
                        && expr_sets_below(self.rules_spec()[k as int].expression, ns as int)));
                }
                return Err(ParseRuletableError::new(String::from_str(
                    "a rule expression refers to a set that the final declarations do not provide",
                )));
            }
            k = k + 1;
        }
        Ok(())
    }
}

/// Whether every set id in the expression lies below `k`, as
/// `expr_sets_below` says.
#[verifier::loop_isolation(false)]
fn sets_below_check(e: &Expression, k: usize) -> (r: bool)
    ensures
        r == expr_sets_below(*e, k as int),
    decreases *e,
{
    match e {
        Expression::Atom(a) => match a {
            crate::expression::RuletableAtom::SetId(id) => *id < k,
            _ => true,
        },
        Expression::Junction(_, es) => {
            let mut i: usize = 0;
            let mut ok: bool = true;
            while i < es.len()
                invariant
                    i <= es@.len(),
                    ok == forall|q: int| 0 <= q < i ==> expr_sets_below(
                        #[trigger] es@[q], k as int,
                    ),
                decreases es@.len() - i,
            {
                let b = sets_below_check(&es[i], k);
                ok = ok && b;
                i = i + 1;
            }
            ok
        },
    }
}

} // verus!
