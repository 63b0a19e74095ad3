//! Instance data for one query: the graph to search and the vertex sets the
//! rule expressions test membership in.  Both are validated against the name
//! space of a compiled rule table and immutable afterwards.

use vstd::prelude::*;

verus! {

/// One bit vector per declared set id; `true` marks a member vertex.
#[derive(Debug)]
pub struct Sets(Vec<Vec<bool>>);

/// The views of a list of bit vectors.
pub open spec fn rows_of(zs: Seq<Vec<bool>>) -> Seq<Seq<bool>> {
    zs.map_values(|v: Vec<bool>| v@)
}

/// Membership in the model of `Sets`: set `id` holds `el` when the bit vector
/// of `id` reaches past `el` and is set there.
pub open spec fn set_has(rows: Seq<Seq<bool>>, id: int, el: int) -> bool {
    0 <= id < rows.len() && 0 <= el < rows[id].len() && rows[id][el]
}

/// The largest element of a list of vertices, at least 0.
pub open spec fn elems_max(s: Seq<usize>) -> int
    decreases s.len(),
{
    if s.len() == 0 {
        0
    } else {
        let m = elems_max(s.drop_last());
        if s.last() > m {
            s.last() as int
        } else {
            m
        }
    }
}

/// Every listed element is at most the largest one.
pub proof fn lemma_elems_max(s: Seq<usize>)
    ensures
        forall|q: int| 0 <= q < s.len() ==> (#[trigger] s[q]) <= elems_max(s),
        0 <= elems_max(s),
    decreases s.len(),
{
    if s.len() > 0 {
        lemma_elems_max(s.drop_last());
        assert forall|q: int| 0 <= q < s.len() implies (#[trigger] s[q]) <= elems_max(s) by {
            if q < s.len() - 1 {
                assert(s.drop_last()[q] == s[q]);
            }
        }
    }
}

/// The member vertices of one bit vector below `n`, in ascending order.
pub open spec fn members_below(row: Seq<bool>, n: int) -> Seq<usize>
    decreases n,
{
    if n <= 0 {
        seq![]
    } else {
        members_below(row, n - 1) + if 0 <= n - 1 < row.len() && row[n - 1] {
            seq![(n - 1) as usize]
        } else {
            seq![]
        }
    }
}

impl Sets {
    /// The bit vectors, one per set id.
    pub closed spec fn rows(&self) -> Seq<Seq<bool>> {
        rows_of(self.0@)
    }

    /// The number of set ids.
    pub fn num_ids(&self) -> (n: usize)
        ensures
            n == self.rows().len(),
    {
        self.0.len()
    }

    /// Whether vertex `element` is a member of set `set_id`.
    pub fn contains(&self, set_id: usize, element: usize) -> (r: bool)
        requires
            set_id < self.rows().len(),
        ensures
            r == set_has(self.rows(), set_id as int, element as int),
    {
        if element >= self.0[set_id].len() {
            return false;
        }
        self.0[set_id][element]
    }

    /// The members of set `set_id`, in ascending order.
    pub fn elements(&self, set_id: usize) -> (r: Vec<usize>)
        requires
            set_id < self.rows().len(),
        ensures
            r@ == members_below(self.rows()[set_id as int], self.rows()[set_id as int].len() as int),
    {
        let row = &self.0[set_id];
        let mut r: Vec<usize> = Vec::new();
        let mut i: usize = 0;
        while i < row.len()
            invariant
                i <= row@.len(),
                row@ == self.rows()[set_id as int],
                set_id < self.rows().len(),
                r@ == members_below(row@, i as int),
            decreases row@.len() - i,
        {
            if row[i] {
                r.push(i);
            }
            i = i + 1;
        }
        r
    }

    /// The length of the longest bit vector, as `max_row_len` says.
    pub fn max_size(&self) -> (n: usize)
        ensures
            n == max_row_len(self.rows()),
    {
        let mut n: usize = 0;
        let mut i: usize = 0;
        while i < self.0.len()
            invariant
                i <= self.rows().len(),
                n == max_row_len(self.rows().take(i as int)),
            decreases self.rows().len() - i,
        {
            proof {
                assert(self.rows().take(i + 1).drop_last() =~= self.rows().take(i as int));
                assert(self.rows().take(i + 1).last() == self.rows()[i as int]);
            }
            if self.0[i].len() > n {
                n = self.0[i].len();
                assert(self.rows()[i as int].len() == n);
            } else {
                assert(self.rows()[i as int].len() <= n);
            }
            i = i + 1;
        }
        proof {
            assert(self.rows().take(self.rows().len() as int) =~= self.rows());
        }
        n
    }
}

/// The length of the longest of a list of bit vectors.
pub open spec fn max_row_len(rows: Seq<Seq<bool>>) -> int
    decreases rows.len(),
{
    if rows.len() == 0 {
        0
    } else {
        let m = max_row_len(rows.drop_last());
        if rows.last().len() > m {
            rows.last().len() as int
        } else {
            m
        }
    }
}

/// Every bit vector is at most the longest one.
pub proof fn lemma_max_row_len(rows: Seq<Seq<bool>>)
    ensures
        forall|id: int| 0 <= id < rows.len() ==> (#[trigger] rows[id]).len() <= max_row_len(rows),
        0 <= max_row_len(rows),
    decreases rows.len(),
{
    if rows.len() > 0 {
        lemma_max_row_len(rows.drop_last());
        assert forall|id: int| 0 <= id < rows.len()
            implies (#[trigger] rows[id]).len() <= max_row_len(rows) by {
            if id < rows.len() - 1 {
                assert(rows.drop_last()[id] == rows[id]);
            }
        }
    }
}

/// The adjacency structure of one query graph: for each vertex `u`, the
/// arcs leaving `u` stand in `vals[seps[u] .. seps[u + 1]]`, each an arc
/// `(neighbor, edge-type id)`.
#[derive(Debug)]
pub struct Graph {
    n: usize,
    seps: Vec<usize>,
    vals: Vec<(usize, usize)>,
}

impl Graph {
    /// The number of vertices.
    pub closed spec fn n_spec(&self) -> usize {
        self.n
    }

    /// The offsets into the flat arc list, one per vertex plus a final end.
    pub closed spec fn seps_spec(&self) -> Seq<usize> {
        self.seps@
    }

    /// The flat arc list.
    pub closed spec fn vals_spec(&self) -> Seq<(usize, usize)> {
        self.vals@
    }

    /// The compressed layout is consistent: offsets cover the arc list
    /// monotonically and every arc points at a vertex.
    pub open spec fn wf(&self) -> bool {
        &&& self.seps_spec().len() == self.n_spec() + 1
        &&& self.seps_spec()[0] == 0
        &&& forall|i: int| 0 <= i < self.n_spec()
            ==> #[trigger] self.seps_spec()[i] <= self.seps_spec()[i + 1]
        &&& self.seps_spec()[self.n_spec() as int] == self.vals_spec().len()
        &&& self.vals_spec().len() <= usize::MAX
        &&& forall|k: int| 0 <= k < self.vals_spec().len()
            ==> (#[trigger] self.vals_spec()[k]).0 < self.n_spec()
    }

    /// Every arc label lies below `ne`.
    pub open spec fn labels_below(&self, ne: int) -> bool {
        forall|k: int| 0 <= k < self.vals_spec().len()
            ==> (#[trigger] self.vals_spec()[k]).1 < ne
    }

    /// The arcs leaving vertex `u`.
    pub open spec fn neighbors_spec(&self, u: int) -> Seq<(usize, usize)> {
        self.vals_spec().subrange(
            self.seps_spec()[u] as int, self.seps_spec()[u + 1] as int,
        )
    }

    /// Offsets grow monotonically over any distance.
    pub proof fn lemma_seps_monotone(&self, i: int, j: int)
        requires
            self.wf(),
            0 <= i <= j <= self.n_spec(),
        ensures
            self.seps_spec()[i] <= self.seps_spec()[j],
        decreases j - i,
    {
        if i < j {
            self.lemma_seps_monotone(i + 1, j);
        }
    }

    /// The number of vertices.
    pub fn num_vertices(&self) -> (r: usize)
        ensures
            r == self.n_spec(),
    {
        self.n
    }

    /// The arcs leaving vertex `u`, each a `(neighbor, edge-type id)` pair.
    pub fn neighbors(&self, u: usize) -> (r: &[(usize, usize)])
        requires
            self.wf(),
            u < self.n_spec(),
        ensures
            r@ == self.neighbors_spec(u as int),
    {
        proof {
            self.lemma_seps_monotone(u as int, u + 1);
            self.lemma_seps_monotone(u + 1, self.n_spec() as int);
        }
        let start = self.seps[u];
        let end = self.seps[u + 1];
        vstd::slice::slice_subrange(self.vals.as_slice(), start, end)
    }
}

/// An error raised while building `Sets`: an undeclared set name, or a
/// duplicate element within one set.
#[derive(Debug)]
pub struct ParseSetsError {
    msg: String,
}

impl ParseSetsError {
    pub(crate) fn new(msg: String) -> (r: ParseSetsError) {
        ParseSetsError { msg }
    }

    /// The human-readable description of the error.
    pub fn message(&self) -> &str {
        self.msg.as_str()
    }
}

/// The sequence holds no element twice.
pub open spec fn no_dups(s: Seq<usize>) -> bool {
    forall|i: int, j: int| 0 <= i < j < s.len() ==> s[i] != s[j]
}

/// The set name of input entry `i` resolves to set id `id` of the table.
pub open spec fn entry_resolves(
    rt: &crate::ruletable::Ruletable, inputs: Seq<(String, Vec<usize>)>, i: int, id: int,
) -> bool {
    0 <= i < inputs.len() && crate::strutil::find_name(
        crate::strutil::views_of(rt.sets_spec()), inputs[i].0@,
    ) == Option::Some(id)
}

impl Sets {
    /// Builds the bit vectors from per-set element lists, validating every
    /// set name against the rule table: `Ok` exactly when every name is
    /// declared and no list repeats an element, and then membership is
    /// exactly the given lists'.
    #[verifier::loop_isolation(false)]
    pub fn new(inputs: &Vec<(String, Vec<usize>)>, ruletable: &crate::ruletable::Ruletable)
        -> (r: Result<Sets, ParseSetsError>)
        requires
            ruletable.wf(),
            forall|i: int, j: int|
                0 <= i < j < inputs@.len() ==> (#[trigger] inputs@[i]).0@ != (#[trigger]
                inputs@[j]).0@,
            forall|i: int, j: int|
                0 <= i < inputs@.len() && 0 <= j < (#[trigger] inputs@[i]).1@.len()
                    ==> (#[trigger] inputs@[i].1@[j]) < usize::MAX,
        ensures
            r is Ok <==> forall|i: int|
                0 <= i < inputs@.len() ==> crate::strutil::find_name(
                    crate::strutil::views_of(ruletable.sets_spec()), (#[trigger]
                    inputs@[i]).0@,
                ) is Some && no_dups(inputs@[i].1@),
            r matches Ok(z) ==> z.rows().len() == ruletable.num_sets_spec() && (forall|
                id: int, x: usize,
            |
                #[trigger] set_has(z.rows(), id, x as int) <==> exists|i: int|
                    entry_resolves(ruletable, inputs@, i, id) && (#[trigger]
                    inputs@[i]).1@.contains(x)) && (forall|i: int, id: int|
                #[trigger] entry_resolves(ruletable, inputs@, i, id) ==> z.rows()[id].len()
                    == elems_max(inputs@[i].1@) + 1) && (forall|id: int|
                0 <= id < z.rows().len() && !(exists|i: int|
                    entry_resolves(ruletable, inputs@, i, id)) ==> (#[trigger]
                z.rows()[id]).len() == 0),
    {
        let num = ruletable.num_sets();
        let mut z: Vec<Vec<bool>> = Vec::new();
        while z.len() < num
            invariant
                z@.len() <= num,
                forall|p: int| 0 <= p < z@.len() ==> (#[trigger] z@[p])@.len() == 0,
            decreases num - z@.len(),
        {
            z.push(Vec::new());
        }
        let ghost zrows0 = z@.map_values(|v: Vec<bool>| v@);
        let mut i: usize = 0;
        while i < inputs.len()
            invariant
                i <= inputs@.len(),
                z@.len() == num,
                forall|ii: int|
                    0 <= ii < i ==> crate::strutil::find_name(
                        crate::strutil::views_of(ruletable.sets_spec()), (#[trigger]
                        inputs@[ii]).0@,
                    ) is Some && no_dups(inputs@[ii].1@),
                forall|id: int, x: usize|
                    #[trigger] set_has(rows_of(z@), id, x as int) <==> exists|
                        ii: int,
                    |
                        entry_resolves(ruletable, inputs@, ii, id) && ii < i && (#[trigger]
                        inputs@[ii]).1@.contains(x),
                forall|ii: int, id: int|
                    #[trigger] entry_resolves(ruletable, inputs@, ii, id) && ii < i
                        ==> rows_of(z@)[id].len() == elems_max(inputs@[ii].1@) + 1,
                forall|id: int|
                    0 <= id < num && !(exists|ii: int|
                        entry_resolves(ruletable, inputs@, ii, id) && ii < i) ==> (#[trigger]
                    rows_of(z@)[id]).len() == 0,
            decreases inputs@.len() - i,
        {
            let name = inputs[i].0.as_str();
            let id = match ruletable.get_set_id(name) {
                Some(id) => id,
                None => {
                    let mut m = String::from_str("set ");
                    m.append(name);
                    m.append(" was not specified in rule table");
                    return Err(ParseSetsError::new(m));
                },
            };
            proof {
                crate::strutil::lemma_find_from_bounds(
                    crate::strutil::views_of(ruletable.sets_spec()), inputs@[i as int].0@, 0,
                );
            }
            let elems = &inputs[i].1;
            let mut mx: usize = 0;
            let mut j: usize = 0;
            while j < elems.len()
                invariant
                    j <= elems@.len(),
                    elems@ == inputs@[i as int].1@,
                    i < inputs@.len(),
                    mx as int == elems_max(elems@.take(j as int)),
                    mx < usize::MAX,
                decreases elems@.len() - j,
            {
                proof {
                    assert(elems@.take(j + 1).drop_last() =~= elems@.take(j as int));
                    assert(elems@.take(j + 1).last() == elems@[j as int]);
                }
                if elems[j] > mx {
                    mx = elems[j];
                }
                j = j + 1;
            }
            proof {
                assert(elems@.take(elems@.len() as int) =~= elems@);
                lemma_elems_max(elems@);
            }
            let n = mx + 1;
            let mut row: Vec<bool> = crate::array_nd::filled_vec(n, false);
            let mut j: usize = 0;
            while j < elems.len()
                invariant
                    j <= elems@.len(),
                    elems@ == inputs@[i as int].1@,
                    i < inputs@.len(),
                    row@.len() == n,
                    forall|q: int| 0 <= q < elems@.len() ==> (#[trigger] elems@[q]) < n,
                    forall|b: int|
                        0 <= b < n ==> (#[trigger] row@[b] <==> elems@.take(j as int).contains(
                            b as usize,
                        )),
                    forall|q1: int, q2: int| 0 <= q1 < q2 < j ==> elems@[q1] != elems@[q2],
                decreases elems@.len() - j,
            {
                let x = elems[j];
                if row[x] {
                    let mut m = String::from_str("found duplicate entry ");
                    crate::strutil::append_decimal(&mut m, x);
                    m.append(" in set ");
                    m.append(name);
                    proof {
                        let q = choose|q: int|
                            0 <= q < elems@.take(j as int).len() && elems@.take(j as int)[q]
                                == x;
                        assert(elems@[q] == elems@[j as int]);
                        assert(!no_dups(inputs@[i as int].1@));
                    }
                    return Err(ParseSetsError::new(m));
                }
                row.set(x, true);
                proof {
                    assert forall|b: int| 0 <= b < n implies (#[trigger] row@[b]
                        <==> elems@.take(j + 1).contains(b as usize)) by {
                        assert(elems@.take(j + 1) =~= elems@.take(j as int).push(
                            elems@[j as int],
                        ));
                        if b == x {
                            assert(elems@.take(j + 1)[j as int] == x);
                        } else {
                            if elems@.take(j + 1).contains(b as usize) {
                                let q = choose|q: int|
                                    0 <= q < elems@.take(j + 1).len() && #[trigger] elems@.take(
                                        j + 1,
                                    )[q] == b as usize;
                                assert(q < j);
                                assert(elems@.take(j as int)[q] == b as usize);
                            }
                            if elems@.take(j as int).contains(b as usize) {
                                let q = choose|q: int|
                                    0 <= q < elems@.take(j as int).len() && elems@.take(
                                        j as int,
                                    )[q] == b as usize;
                                assert(elems@.take(j + 1)[q] == b as usize);
                            }
                        }
                    }
                    assert forall|q1: int, q2: int| 0 <= q1 < q2 < j + 1
                        implies elems@[q1] != elems@[q2] by {
                        if q2 == j {
                            assert(!elems@.take(j as int).contains(elems@[j as int]));
                            assert(elems@.take(j as int)[q1] == elems@[q1]);
                        }
                    }
                }
                j = j + 1;
            }
            proof {
                assert(crate::strutil::views_of(ruletable.sets_spec()).len()
                    == ruletable.sets_spec().len());
                assert((id as int) < z@.len());
            }
            let ghost rows_pre = rows_of(z@);
            z.set(id, row);
            proof {
                assert(elems@.take(elems@.len() as int) =~= elems@);
                let rows_post = rows_of(z@);
                assert(rows_post[id as int].len() == elems_max(inputs@[i as int].1@) + 1);
                assert forall|ii: int, id2: int|
                    #[trigger] entry_resolves(ruletable, inputs@, ii, id2) && ii < i + 1
                        implies rows_post[id2].len() == elems_max(inputs@[ii].1@) + 1 by {
                    crate::strutil::lemma_find_from_bounds(
                        crate::strutil::views_of(ruletable.sets_spec()), inputs@[ii].0@, 0,
                    );
                    assert(0 <= id2 < num);
                    if id2 == id as int {
                        if ii < i {
                            lemma_resolves_injective(ruletable, inputs@, ii, i as int, id2);
                            assert(inputs@[ii].0@ == inputs@[i as int].0@);
                        } else {
                            assert(rows_post[id as int].len() == elems_max(
                                inputs@[i as int].1@,
                            ) + 1);
                        }
                    } else {
                        assert(rows_post[id2] == rows_pre[id2]);
                        if ii == i {
                            assert(entry_resolves(ruletable, inputs@, i as int, id as int));
                        } else {
                            assert(rows_pre[id2].len() == elems_max(inputs@[ii].1@) + 1);
                        }
                    }
                }
                assert forall|id2: int|
                    0 <= id2 < num && !(exists|ii: int|
                        entry_resolves(ruletable, inputs@, ii, id2) && ii < i + 1)
                        implies (#[trigger] rows_post[id2]).len() == 0 by {
                    assert(!(entry_resolves(ruletable, inputs@, i as int, id2) && (i as int) < i
                        + 1));
                    assert(id2 != id as int);
                    assert(rows_post[id2] == rows_pre[id2]);
                }
                assert forall|idq: int, x: usize|
                    #[trigger] set_has(rows_post, idq, x as int) <==> exists|ii: int|
                        entry_resolves(ruletable, inputs@, ii, idq) && ii < i + 1 && (#[trigger]
                        inputs@[ii]).1@.contains(x) by {
                    if idq == id {
                        if set_has(rows_post, idq, x as int) {
                            assert(row@[x as int]);
                            assert(entry_resolves(ruletable, inputs@, i as int, idq) && (
                            i as int) < i + 1 && inputs@[i as int].1@.contains(x));
                        }
                        if exists|ii: int|
                            entry_resolves(ruletable, inputs@, ii, idq) && ii < i + 1 && (
                            #[trigger] inputs@[ii]).1@.contains(x) {
                            let ii = choose|ii: int|
                                entry_resolves(ruletable, inputs@, ii, idq) && ii < i + 1 && (
                                #[trigger] inputs@[ii]).1@.contains(x);
                            if ii < i {
                                assert(set_has(rows_pre, idq, x as int));
                                lemma_resolves_injective(ruletable, inputs@, ii, i as int, idq);
                                assert(inputs@[ii].0@ == inputs@[i as int].0@);
                            } else {
                                let q = choose|q: int|
                                    0 <= q < elems@.len() && elems@[q] == x;
                                assert((x as int) < n);
                                assert(row@[x as int]);
                            }
                        }
                    } else {
                        assert(rows_post[idq] == rows_pre[idq] || !(0 <= idq < rows_post.len()));
                        if set_has(rows_post, idq, x as int) {
                            assert(set_has(rows_pre, idq, x as int));
                        }
                        if set_has(rows_pre, idq, x as int) {
                            assert(set_has(rows_post, idq, x as int));
                        }
                        assert forall|ii: int|
                            entry_resolves(ruletable, inputs@, ii, idq) && ii < i + 1 implies ii
                            < i by {
                            if ii == i {
                                assert(false);
                            }
                        }
                    }
                }
            }
            i = i + 1;
        }
        proof {
            assert(rows_of(z@).len() == num);
        }
        Ok(Sets(z))
    }
}

/// Two entries resolving to the same set id carry the same name, because
/// name lookup is a function of the name.
proof fn lemma_resolves_injective(
    rt: &crate::ruletable::Ruletable, inputs: Seq<(String, Vec<usize>)>, i: int, j: int, id: int,
)
    requires
        entry_resolves(rt, inputs, i, id),
        entry_resolves(rt, inputs, j, id),
    ensures
        inputs[i].0@ == inputs[j].0@,
{
    crate::strutil::lemma_find_from_bounds(
        crate::strutil::views_of(rt.sets_spec()), inputs[i].0@, 0,
    );
    crate::strutil::lemma_find_from_bounds(
        crate::strutil::views_of(rt.sets_spec()), inputs[j].0@, 0,
    );
}

/// An error raised while building a `Graph`: an edge name absent from the
/// rule table.
#[derive(Debug)]
pub struct ParseGraphError {
    msg: String,
}

impl ParseGraphError {
    pub(crate) fn new(msg: String) -> (r: ParseGraphError) {
        ParseGraphError { msg }
    }

    /// The human-readable description of the error.
    pub fn message(&self) -> &str {
        self.msg.as_str()
    }
}

/// The number of times `u` occurs as an endpoint among the first `j` edges
/// of one list; a self-loop counts twice.
pub open spec fn pair_count(ps: Seq<(usize, usize)>, u: usize, j: int) -> int
    decreases j,
{
    if j <= 0 {
        0
    } else {
        pair_count(ps, u, j - 1) + (if ps[j - 1].0 == u {
            1int
        } else {
            0int
        }) + (if ps[j - 1].1 == u {
            1int
        } else {
            0int
        })
    }
}

/// The number of times `u` occurs as an endpoint over the first `i` lists.
pub open spec fn lists_count(lists: Seq<(String, Vec<(usize, usize)>)>, u: usize, i: int) -> int
    decreases i,
{
    if i <= 0 {
        0
    } else {
        lists_count(lists, u, i - 1) + pair_count(
            lists[i - 1].1@, u, lists[i - 1].1@.len() as int,
        )
    }
}

/// The largest endpoint among the first `j` edges of one list, at least 0.
pub open spec fn pair_max(ps: Seq<(usize, usize)>, j: int) -> int
    decreases j,
{
    if j <= 0 {
        0
    } else {
        let m = pair_max(ps, j - 1);
        let a = ps[j - 1].0 as int;
        let b = ps[j - 1].1 as int;
        if a >= m && a >= b {
            a
        } else if b >= m {
            b
        } else {
            m
        }
    }
}

/// The largest endpoint over the first `i` lists, at least 0.
pub open spec fn lists_max(lists: Seq<(String, Vec<(usize, usize)>)>, i: int) -> int
    decreases i,
{
    if i <= 0 {
        0
    } else {
        let m = lists_max(lists, i - 1);
        let p = pair_max(lists[i - 1].1@, lists[i - 1].1@.len() as int);
        if p >= m {
            p
        } else {
            m
        }
    }
}

/// The number of edges over the first `i` lists.
pub open spec fn total_pairs(lists: Seq<(String, Vec<(usize, usize)>)>, i: int) -> int
    decreases i,
{
    if i <= 0 {
        0
    } else {
        total_pairs(lists, i - 1) + lists[i - 1].1@.len()
    }
}

/// The summed endpoint counts of the vertices below `u`, over the first `j`
/// edges of one list.
pub open spec fn sum_pair_counts(ps: Seq<(usize, usize)>, u: int, j: int) -> int
    decreases u,
{
    if u <= 0 {
        0
    } else {
        sum_pair_counts(ps, u - 1, j) + pair_count(ps, (u - 1) as usize, j)
    }
}

/// The summed endpoint counts of the vertices below `u`, over the first `i`
/// lists.
pub open spec fn sum_lists_counts(lists: Seq<(String, Vec<(usize, usize)>)>, u: int, i: int)
    -> int
    decreases u,
{
    if u <= 0 {
        0
    } else {
        sum_lists_counts(lists, u - 1, i) + lists_count(lists, (u - 1) as usize, i)
    }
}

/// One more edge adds at most its two endpoints to a summed count.
proof fn lemma_sum_pair_counts_step(ps: Seq<(usize, usize)>, u: int, j: int)
    requires
        j >= 1,
        u <= usize::MAX + 1,
    ensures
        sum_pair_counts(ps, u, j) == sum_pair_counts(ps, u, j - 1) + (if 0 <= (ps[j - 1].0 as int)
            < u {
            1int
        } else {
            0int
        }) + (if 0 <= (ps[j - 1].1 as int) < u {
            1int
        } else {
            0int
        }),
    decreases u,
{
    if u > 0 {
        lemma_sum_pair_counts_step(ps, u - 1, j);
    }
}

/// A summed endpoint count stays below twice the number of edges.
proof fn lemma_sum_pair_counts_bound(ps: Seq<(usize, usize)>, u: int, j: int)
    requires
        0 <= j,
        u <= usize::MAX + 1,
    ensures
        0 <= sum_pair_counts(ps, u, j) <= 2 * j,
    decreases j,
{
    if j == 0 {
        lemma_sum_pair_counts_zero(ps, u);
    } else {
        lemma_sum_pair_counts_bound(ps, u, j - 1);
        lemma_sum_pair_counts_step(ps, u, j);
    }
}

proof fn lemma_sum_pair_counts_zero(ps: Seq<(usize, usize)>, u: int)
    ensures
        sum_pair_counts(ps, u, 0) == 0,
    decreases u,
{
    if u > 0 {
        lemma_sum_pair_counts_zero(ps, u - 1);
    }
}

/// One more list adds its own summed counts.
proof fn lemma_sum_lists_counts_step(lists: Seq<(String, Vec<(usize, usize)>)>, u: int, i: int)
    requires
        i >= 1,
    ensures
        sum_lists_counts(lists, u, i) == sum_lists_counts(lists, u, i - 1) + sum_pair_counts(
            lists[i - 1].1@, u, lists[i - 1].1@.len() as int,
        ),
    decreases u,
{
    if u > 0 {
        lemma_sum_lists_counts_step(lists, u - 1, i);
    }
}

proof fn lemma_sum_lists_counts_zero(lists: Seq<(String, Vec<(usize, usize)>)>, u: int)
    ensures
        sum_lists_counts(lists, u, 0) == 0,
    decreases u,
{
    if u > 0 {
        lemma_sum_lists_counts_zero(lists, u - 1);
    }
}

/// The summed endpoint counts stay below twice the number of edges.
proof fn lemma_sum_lists_counts_bound(lists: Seq<(String, Vec<(usize, usize)>)>, u: int, i: int)
    requires
        0 <= i <= lists.len(),
        u <= usize::MAX + 1,
    ensures
        0 <= sum_lists_counts(lists, u, i) <= 2 * total_pairs(lists, i),
    decreases i,
{
    if i == 0 {
        lemma_sum_lists_counts_zero(lists, u);
    } else {
        lemma_sum_lists_counts_bound(lists, u, i - 1);
        lemma_sum_lists_counts_step(lists, u, i);
        lemma_sum_pair_counts_bound(lists[i - 1].1@, u, lists[i - 1].1@.len() as int);
    }
}

/// Endpoint counts never shrink as more edges are taken in.
proof fn lemma_pair_count_mono(ps: Seq<(usize, usize)>, u: usize, j1: int, j2: int)
    requires
        0 <= j1 <= j2,
    ensures
        pair_count(ps, u, j1) <= pair_count(ps, u, j2),
    decreases j2,
{
    if j1 < j2 {
        lemma_pair_count_mono(ps, u, j1, j2 - 1);
    }
}

proof fn lemma_pair_count_nonneg(ps: Seq<(usize, usize)>, u: usize, j: int)
    ensures
        0 <= pair_count(ps, u, j),
    decreases j,
{
    if j > 0 {
        lemma_pair_count_nonneg(ps, u, j - 1);
    }
}

/// Endpoint counts never shrink as more lists are taken in.
proof fn lemma_lists_count_mono(
    lists: Seq<(String, Vec<(usize, usize)>)>, u: usize, i1: int, i2: int,
)
    requires
        0 <= i1 <= i2,
    ensures
        lists_count(lists, u, i1) <= lists_count(lists, u, i2),
    decreases i2,
{
    if i1 < i2 {
        lemma_lists_count_mono(lists, u, i1, i2 - 1);
        lemma_pair_count_nonneg(lists[i2 - 1].1@, u, lists[i2 - 1].1@.len() as int);
    }
}

/// Every endpoint of a taken-in edge stays within the running maximum.
proof fn lemma_pair_max_covers(ps: Seq<(usize, usize)>, j: int, q: int)
    requires
        0 <= q < j,
    ensures
        ps[q].0 <= pair_max(ps, j) && ps[q].1 <= pair_max(ps, j),
    decreases j,
{
    if q < j - 1 {
        lemma_pair_max_covers(ps, j - 1, q);
    }
}


/// The first `k` input lists resolve, and their recorded id pairs are the
/// table's pairs for their names, each id below `ne`.
pub open spec fn resolved_ids_ok(
    rt: &crate::ruletable::Ruletable, lists: Seq<(String, Vec<(usize, usize)>)>,
    ids: Seq<(usize, usize)>, k: int, ne: int,
) -> bool {
    forall|ii: int|
        0 <= ii < k ==> crate::strutil::find_pair(
            crate::strutil::pair_views_of(rt.edges_spec()), (#[trigger] lists[ii]).0@,
        ) is Some && ids[ii] == rt.edges_spec()[crate::strutil::find_pair(
            crate::strutil::pair_views_of(rt.edges_spec()), lists[ii].0@,
        )->Some_0].1 && ids[ii].0 < ne && ids[ii].1 < ne
}

/// The running maximum of a list is within the running maximum over lists.
proof fn lemma_lists_max_covers_self(lists: Seq<(String, Vec<(usize, usize)>)>, i: int)
    requires
        0 <= i < lists.len(),
    ensures
        pair_max(lists[i].1@, lists[i].1@.len() as int) <= lists_max(lists, i + 1),
{
}

/// The graph holds the arc `u -> v` with label `t`.
pub open spec fn graph_arc(g: &Graph, u: usize, v: usize, t: usize) -> bool {
    u < g.n_spec() && exists|q: int|
        0 <= q < g.neighbors_spec(u as int).len() && #[trigger] g.neighbors_spec(u as int)[q]
            == (v, t)
}

/// The arcs vertex `u` receives from the first `j` edges of list `i`, in
/// write order: an edge `(x, y)` of a list resolving to the id pair
/// `(f, r)` puts the arc `(y, f)` at `x` and then the arc `(x, r)` at `y`.
pub open spec fn list_arcs(
    rt: &crate::ruletable::Ruletable, lists: Seq<(String, Vec<(usize, usize)>)>, u: usize,
    i: int, j: int,
) -> Seq<(usize, usize)>
    decreases j,
{
    if !(0 <= i < lists.len()) || j <= 0 {
        seq![]
    } else {
        let prev = list_arcs(rt, lists, u, i, j - 1);
        match crate::strutil::find_pair(
            crate::strutil::pair_views_of(rt.edges_spec()), lists[i].0@,
        ) {
            Option::Some(k) => {
                let pr = lists[i].1@[j - 1];
                let ids = rt.edges_spec()[k].1;
                prev + (if pr.0 == u {
                    seq![(pr.1, ids.0)]
                } else {
                    seq![]
                }) + (if pr.1 == u {
                    seq![(pr.0, ids.1)]
                } else {
                    seq![]
                })
            },
            Option::None => prev,
        }
    }
}

/// The arcs vertex `u` receives from the first `i` whole lists.
pub open spec fn lists_arcs(
    rt: &crate::ruletable::Ruletable, lists: Seq<(String, Vec<(usize, usize)>)>, u: usize,
    i: int,
) -> Seq<(usize, usize)>
    decreases i,
{
    if i <= 0 {
        seq![]
    } else {
        lists_arcs(rt, lists, u, i - 1) + list_arcs(
            rt, lists, u, i - 1, lists[i - 1].1@.len() as int,
        )
    }
}

/// The arcs vertex `u` receives from all the input lists, in write order.
pub open spec fn input_arcs(
    rt: &crate::ruletable::Ruletable, lists: Seq<(String, Vec<(usize, usize)>)>, u: usize,
) -> Seq<(usize, usize)> {
    lists_arcs(rt, lists, u, lists.len() as int)
}

/// The arcs vertex `u` has received by fill position `(i, j)`.
pub open spec fn fill_arcs(
    rt: &crate::ruletable::Ruletable, lists: Seq<(String, Vec<(usize, usize)>)>, u: usize,
    i: int, j: int,
) -> Seq<(usize, usize)> {
    lists_arcs(rt, lists, u, i) + list_arcs(rt, lists, u, i, j)
}

/// The endpoint count of one vertex during the fill: whole lists before `i`
/// plus the first `j` edges of list `i`.
pub open spec fn fill_cnt(lists: Seq<(String, Vec<(usize, usize)>)>, u: usize, i: int, j: int)
    -> int {
    lists_count(lists, u, i) + if 0 <= i < lists.len() {
        pair_count(lists[i].1@, u, j)
    } else {
        0
    }
}

/// A single vertex's endpoint count stays below twice the edge total.
proof fn lemma_lists_count_single_bound(
    lists: Seq<(String, Vec<(usize, usize)>)>, u: usize, i: int,
)
    requires
        0 <= i <= lists.len(),
    ensures
        0 <= lists_count(lists, u, i) <= 2 * total_pairs(lists, i),
    decreases i,
{
    if i > 0 {
        lemma_lists_count_single_bound(lists, u, i - 1);
        lemma_pair_count_single_bound(lists[i - 1].1@, u, lists[i - 1].1@.len() as int);
    }
}

proof fn lemma_pair_count_single_bound(ps: Seq<(usize, usize)>, u: usize, j: int)
    requires
        0 <= j,
    ensures
        0 <= pair_count(ps, u, j) <= 2 * j,
    decreases j,
{
    if j > 0 {
        lemma_pair_count_single_bound(ps, u, j - 1);
    }
}


proof fn lemma_pair_max_mono(ps: Seq<(usize, usize)>, j1: int, j2: int)
    requires
        0 <= j1 <= j2,
    ensures
        pair_max(ps, j1) <= pair_max(ps, j2),
    decreases j2,
{
    if j1 < j2 {
        lemma_pair_max_mono(ps, j1, j2 - 1);
    }
}

proof fn lemma_lists_max_mono(lists: Seq<(String, Vec<(usize, usize)>)>, i1: int, i2: int)
    requires
        0 <= i1 <= i2,
    ensures
        lists_max(lists, i1) <= lists_max(lists, i2),
    decreases i2,
{
    if i1 < i2 {
        lemma_lists_max_mono(lists, i1, i2 - 1);
    }
}

/// Sums over an initial segment of vertices never shrink as the segment
/// grows.
proof fn lemma_sum_lists_counts_mono(
    lists: Seq<(String, Vec<(usize, usize)>)>, u1: int, u2: int, i: int,
)
    requires
        0 <= u1 <= u2,
        0 <= i <= lists.len(),
    ensures
        sum_lists_counts(lists, u1, i) <= sum_lists_counts(lists, u2, i),
    decreases u2,
{
    if u1 < u2 {
        lemma_sum_lists_counts_mono(lists, u1, u2 - 1, i);
        lemma_lists_count_single_bound(lists, (u2 - 1) as usize, i);
    }
}

/// Every slot below the final offset belongs to exactly one vertex's region.
proof fn lemma_slot_region(seps: Seq<usize>, n: int, q: int)
    requires
        seps.len() == n + 1,
        n >= 0,
        seps[0] == 0,
        0 <= q < seps[n],
        forall|x: int| 0 <= x < n ==> #[trigger] seps[x] <= seps[x + 1],
    ensures
        exists|u: int| 0 <= u < n && #[trigger] seps[u] <= q && q < seps[u + 1],
    decreases n,
{
    if n > 0 {
        if q >= seps[n - 1] {
            assert(seps[n - 1] <= q && q < seps[n]);
        } else {
            lemma_slot_region(seps.take(n as int), n - 1, q);
            let u = choose|u: int|
                0 <= u < n - 1 && #[trigger] seps.take(n as int)[u] <= q && q < seps.take(
                    n as int,
                )[u + 1];
            assert(seps[u] <= q && q < seps[u + 1]);
        }
    }
}

impl Graph {
    /// Builds the compressed adjacency from named edge lists, validating
    /// every name against the rule table: `Ok` exactly when every name is
    /// declared, and then the graph's arcs are exactly the input's, two per
    /// edge, labeled with the name's forward and reverse ids.
    #[verifier::loop_isolation(false)]
    #[verifier::rlimit(100)]
    pub fn new(
        edge_lists: &Vec<(String, Vec<(usize, usize)>)>, ruletable: &crate::ruletable::Ruletable,
    ) -> (r: Result<Graph, ParseGraphError>)
        requires
            ruletable.wf(),
            2 * total_pairs(edge_lists@, edge_lists@.len() as int) <= usize::MAX,
            lists_max(edge_lists@, edge_lists@.len() as int) < usize::MAX,
        ensures
            r is Ok <==> forall|i: int|
                0 <= i < edge_lists@.len() ==> crate::strutil::find_pair(
                    crate::strutil::pair_views_of(ruletable.edges_spec()), (#[trigger]
                    edge_lists@[i]).0@,
                ) is Some,
            r matches Ok(g) ==> ({
                &&& g.wf()
                &&& g.labels_below(ruletable.num_edges_spec() as int)
                &&& g.n_spec() == lists_max(edge_lists@, edge_lists@.len() as int) + 1
                &&& forall|u: int|
                    0 <= u < g.n_spec() ==> #[trigger] g.neighbors_spec(u) == input_arcs(
                        ruletable, edge_lists@, u as usize,
                    )
            }),
    {
        let ghost lists = edge_lists@;
        let ghost evs = crate::strutil::pair_views_of(ruletable.edges_spec());
        let nlists = edge_lists.len();
        let ne = ruletable.num_edges();

        // resolve every edge name first
        let mut ids: Vec<(usize, usize)> = Vec::new();
        let mut i: usize = 0;
        while i < nlists
            invariant
                i <= nlists,
                ids@.len() == i,
                ne == ruletable.num_edges_spec(),
                resolved_ids_ok(ruletable, lists, ids@, i as int, ne as int),
            decreases nlists - i,
        {
            let name = edge_lists[i].0.as_str();
            match ruletable.get_edge_ids(name) {
                Some(pr) => {
                    let ghost ids_pre = ids@;
                    ids.push(pr);
                    proof {
                        crate::strutil::lemma_find_pair_bounds(evs, lists[i as int].0@, 0);
                        let k = crate::strutil::find_pair(evs, lists[i as int].0@)->Some_0;
                        assert(crate::strutil::pair_views_of(ruletable.edges_spec()).len()
                            == ruletable.edges_spec().len());
                        assert(ruletable.edges_spec()[k].1.0 == k);
                        assert(ruletable.edges_spec()[k].1.1 < ne);
                        assert forall|ii: int| 0 <= ii < i + 1 implies crate::strutil::find_pair(
                            evs, (#[trigger] lists[ii]).0@,
                        ) is Some && ids@[ii] == ruletable.edges_spec()[crate::strutil::find_pair(
                            evs, lists[ii].0@,
                        )->Some_0].1 && ids@[ii].0 < ne && ids@[ii].1 < ne by {
                            if ii < i {
                                assert(ids@[ii] == ids_pre[ii]);
                            }
                        }
                    }
                },
                None => {
                    let mut m = String::from_str("edge ");
                    m.append(name);
                    m.append(" was not specified in rule table");
                    return Err(ParseGraphError::new(m));
                },
            }
            i = i + 1;
        }

        // the vertex count: one past the largest endpoint
        let mut mx: usize = 0;
        let mut i: usize = 0;
        while i < nlists
            invariant
                i <= nlists,
                mx as int == lists_max(lists, i as int),
            decreases nlists - i,
        {
            let ps = &edge_lists[i].1;
            proof {
                lemma_lists_max_mono(lists, i as int, lists.len() as int);
            }
            let mut j: usize = 0;
            while j < ps.len()
                invariant
                    j <= ps@.len(),
                    ps@ == lists[i as int].1@,
                    i < nlists,
                    mx as int == if pair_max(ps@, j as int) >= lists_max(lists, i as int) {
                        pair_max(ps@, j as int)
                    } else {
                        lists_max(lists, i as int)
                    },
                    mx < usize::MAX,
                decreases ps@.len() - j,
            {
                proof {
                    lemma_pair_max_mono(ps@, j + 1, ps@.len() as int);
                    lemma_lists_max_covers_self(lists, i as int);
                    lemma_lists_max_mono(lists, i + 1, lists.len() as int);
                }
                let pr = ps[j];
                if pr.0 > mx {
                    mx = pr.0;
                }
                if pr.1 > mx {
                    mx = pr.1;
                }
                j = j + 1;
            }
            proof {
                lemma_lists_max_mono(lists, i + 1, lists.len() as int);
            }
            i = i + 1;
        }
        let n = mx + 1;

        // count the endpoint occurrences of every vertex
        let mut degree: Vec<usize> = crate::array_nd::filled_vec(n, 0);
        let mut i: usize = 0;
        while i < nlists
            invariant
                i <= nlists,
                degree@.len() == n,
                n == lists_max(lists, lists.len() as int) + 1,
                forall|u: int|
                    0 <= u < n ==> #[trigger] degree@[u] == lists_count(lists, u as usize, i as int),
            decreases nlists - i,
        {
            let ps = &edge_lists[i].1;
            let mut j: usize = 0;
            while j < ps.len()
                invariant
                    j <= ps@.len(),
                    ps@ == lists[i as int].1@,
                    i < nlists,
                    degree@.len() == n,
                    n == lists_max(lists, lists.len() as int) + 1,
                    forall|u: int|
                        0 <= u < n ==> #[trigger] degree@[u] == fill_cnt(
                            lists, u as usize, i as int, j as int,
                        ),
                decreases ps@.len() - j,
            {
                let pr = ps[j];
                proof {
                    lemma_pair_max_covers(ps@, ps@.len() as int, j as int);
                    lemma_lists_max_covers_self(lists, i as int);
                    lemma_lists_max_mono(lists, i + 1, lists.len() as int);
                    lemma_fill_cnt_full_bound(lists, pr.0, i as int, j as int);
                    lemma_fill_cnt_full_bound(lists, pr.1, i as int, j as int);
                }
                let da = degree[pr.0];
                degree.set(pr.0, da + 1);
                let db = degree[pr.1];
                degree.set(pr.1, db + 1);
                proof {
                    assert forall|u: int| 0 <= u < n implies #[trigger] degree@[u] == fill_cnt(
                        lists, u as usize, i as int, j + 1,
                    ) by {
                        assert(pair_count(ps@, u as usize, j + 1) == pair_count(
                            ps@, u as usize, j as int,
                        ) + (if ps@[j as int].0 == u as usize {
                            1int
                        } else {
                            0int
                        }) + (if ps@[j as int].1 == u as usize {
                            1int
                        } else {
                            0int
                        }));
                    }
                }
                j = j + 1;
            }
            i = i + 1;
        }

        // prefix sums give each vertex its region of the flat arc list
        let mut seps: Vec<usize> = Vec::new();
        seps.push(0);
        let mut u: usize = 0;
        while u < n
            invariant
                u <= n,
                seps@.len() == u + 1,
                degree@.len() == n,
                forall|x: int|
                    0 <= x < n ==> #[trigger] degree@[x] == lists_count(
                        lists, x as usize, lists.len() as int,
                    ),
                forall|x: int|
                    0 <= x <= u ==> #[trigger] seps@[x] == sum_lists_counts(
                        lists, x, lists.len() as int,
                    ),
            decreases n - u,
        {
            proof {
                lemma_sum_lists_counts_bound(lists, u + 1, lists.len() as int);
            }
            let next = seps[u] + degree[u];
            seps.push(next);
            u = u + 1;
        }

        // bucket fill: walk the edges once, writing each arc at its vertex's
        // cursor
        let total_slots = seps[n];
        let mut vals: Vec<(usize, usize)> = crate::array_nd::filled_vec(total_slots, (0, 0));
        let mut cursor: Vec<usize> = Vec::new();
        let mut u: usize = 0;
        while u < n
            invariant
                u <= n,
                cursor@.len() == u,
                seps@.len() == n + 1,
                forall|x: int| 0 <= x < u ==> #[trigger] cursor@[x] == seps@[x],
            decreases n - u,
        {
            cursor.push(seps[u]);
            u = u + 1;
        }
        proof {
            lemma_fill_init(ruletable, lists, seps@, cursor@, vals@, n, ne as int);
        }
        let mut i: usize = 0;
        while i < nlists
            invariant
                i <= nlists,
                fill_invariant(
                    ruletable, lists, seps@, cursor@, vals@, n, ne as int, i as int, 0,
                ),
                ne == ruletable.num_edges_spec(),
                degree@.len() == n,
                forall|x: int|
                    0 <= x < n ==> #[trigger] degree@[x] == lists_count(
                        lists, x as usize, lists.len() as int,
                    ),
                forall|x: int|
                    0 <= x <= n ==> #[trigger] seps@[x] == sum_lists_counts(
                        lists, x, lists.len() as int,
                    ),
                n == lists_max(lists, lists.len() as int) + 1,
                vals@.len() == seps@[n as int],
                seps@.len() == n + 1,
                cursor@.len() == n,
                ids@.len() == nlists,
                resolved_ids_ok(ruletable, lists, ids@, nlists as int, ne as int),
            decreases nlists - i,
        {
            let ps = &edge_lists[i].1;
            let pr_ids = ids[i];
            let mut j: usize = 0;
            while j < ps.len()
                invariant
                    j <= ps@.len(),
                    ps@ == lists[i as int].1@,
                    i < nlists,
                    pr_ids == ids@[i as int],
                    fill_invariant(
                        ruletable, lists, seps@, cursor@, vals@, n, ne as int, i as int,
                        j as int,
                    ),
                    ne == ruletable.num_edges_spec(),
                    degree@.len() == n,
                    forall|x: int|
                        0 <= x < n ==> #[trigger] degree@[x] == lists_count(
                            lists, x as usize, lists.len() as int,
                        ),
                    forall|x: int|
                        0 <= x <= n ==> #[trigger] seps@[x] == sum_lists_counts(
                            lists, x, lists.len() as int,
                        ),
                    n == lists_max(lists, lists.len() as int) + 1,
                    vals@.len() == seps@[n as int],
                    seps@.len() == n + 1,
                    cursor@.len() == n,
                    ids@.len() == nlists,
                    resolved_ids_ok(ruletable, lists, ids@, nlists as int, ne as int),
                decreases ps@.len() - j,
            {
                let pr = ps[j];
                proof {
                    lemma_pair_max_covers(ps@, ps@.len() as int, j as int);
                    lemma_lists_max_covers_self(lists, i as int);
                    lemma_lists_max_mono(lists, i + 1, lists.len() as int);
                }
                let ghost cursor0 = cursor@;
                let ghost vals0 = vals@;
                let pos_u = cursor[pr.0];
                proof {
                    lemma_fill_room(ruletable, lists, seps@, cursor@, vals@, degree@, n,
                        ne as int, i as int, j as int, pr.0, pr.1);
                }
                vals.set(pos_u, (pr.1, pr_ids.0));
                cursor.set(pr.0, pos_u + 1);
                let pos_v = cursor[pr.1];
                proof {
                    lemma_fill_room_mid(ruletable, lists, seps@, cursor0, cursor@, vals0,
                        degree@, n, ne as int, i as int, j as int, pr.0, pr.1);
                }
                vals.set(pos_v, (pr.0, pr_ids.1));
                cursor.set(pr.1, pos_v + 1);
                proof {
                    assert(crate::strutil::find_pair(evs, (lists[i as int]).0@) is Some
                        && ids@[i as int] == ruletable.edges_spec()[crate::strutil::find_pair(
                        evs, lists[i as int].0@,
                    )->Some_0].1);
                    lemma_fill_step(
                        ruletable, lists, seps@, cursor0, cursor@, vals0, vals@, n, ne as int,
                        i as int, j as int, pr.0, pr.1, pr_ids,
                    );
                }
                j = j + 1;
            }
            proof {
                lemma_fill_roll_over(
                    ruletable, lists, seps@, cursor@, vals@, n, ne as int, i as int,
                );
            }
            i = i + 1;
        }
        let g = Graph { n, seps, vals };
        proof {
            lemma_fill_done(
                ruletable, lists, &g, cursor@, degree@, n, ne as int, nlists as int,
            );
            lemma_fill_done_arcs(
                ruletable, lists, &g, cursor@, n, ne as int, nlists as int,
            );
        }
        Ok(g)
    }
}

/// The fill bookkeeping: each cursor sits its vertex's endpoint count past
/// its region start, and every filled slot holds an in-range arc.
#[verifier::opaque]
pub open spec fn fill_invariant(
    rt: &crate::ruletable::Ruletable, lists: Seq<(String, Vec<(usize, usize)>)>,
    seps: Seq<usize>, cursor: Seq<usize>, vals: Seq<(usize, usize)>, n: usize, ne: int, i: int,
    j: int,
) -> bool {
    &&& forall|u: int|
        0 <= u < n ==> #[trigger] cursor[u] == seps[u] + fill_cnt(lists, u as usize, i, j)
    &&& forall|u: int, q: int|
        0 <= u < n && #[trigger] seps[u] <= q < cursor[u] ==> (#[trigger] vals[q]).0 < n
            && vals[q].1 < ne
    &&& forall|u: int|
        0 <= u < n ==> vals.subrange(seps[u] as int, (#[trigger] cursor[u]) as int)
            == fill_arcs(rt, lists, u as usize, i, j)
}

/// Offsets grow with the vertex, over any distance.
proof fn lemma_seps_seq_monotone(
    lists: Seq<(String, Vec<(usize, usize)>)>, seps: Seq<usize>, n: usize, x1: int, x2: int,
)
    requires
        seps.len() == n + 1,
        0 <= x1 <= x2 <= n,
        forall|x: int|
            0 <= x <= n ==> #[trigger] seps[x] == sum_lists_counts(lists, x, lists.len() as int),
    ensures
        seps[x1] <= seps[x2],
{
    lemma_sum_lists_counts_mono(lists, x1, x2, lists.len() as int);
}

/// One vertex's running endpoint count leaves room for this edge's writes
/// within its final count.
proof fn lemma_fill_cnt_full_bound(
    lists: Seq<(String, Vec<(usize, usize)>)>, u: usize, i: int, j: int,
)
    requires
        0 <= i < lists.len(),
        0 <= j < lists[i].1@.len(),
    ensures
        0 <= fill_cnt(lists, u, i, j),
        fill_cnt(lists, u, i, j) + (if lists[i].1@[j].0 == u {
            1int
        } else {
            0int
        }) + (if lists[i].1@[j].1 == u {
            1int
        } else {
            0int
        }) <= lists_count(lists, u, lists.len() as int),
        lists_count(lists, u, lists.len() as int) <= 2 * total_pairs(lists, lists.len() as int),
    decreases 0int,
{
    lemma_lists_count_single_bound(lists, u, lists.len() as int);
    lemma_pair_count_nonneg(lists[i].1@, u, j);
    lemma_lists_count_single_bound(lists, u, i);
    lemma_pair_count_mono(lists[i].1@, u, j + 1, lists[i].1@.len() as int);
    assert(lists_count(lists, u, i + 1) == lists_count(lists, u, i) + pair_count(
        lists[i].1@, u, lists[i].1@.len() as int,
    ));
    lemma_lists_count_mono(lists, u, i + 1, lists.len() as int);
    assert(pair_count(lists[i].1@, u, j + 1) == pair_count(lists[i].1@, u, j) + (if lists[
        i
    ].1@[j].0 == u {
        1int
    } else {
        0int
    }) + (if lists[i].1@[j].1 == u {
        1int
    } else {
        0int
    }));
}

/// The first write of one edge has room: the source's cursor sits strictly
/// inside its region.
proof fn lemma_fill_room(
    rt: &crate::ruletable::Ruletable, lists: Seq<(String, Vec<(usize, usize)>)>,
    seps: Seq<usize>, cursor: Seq<usize>, vals: Seq<(usize, usize)>, degree: Seq<usize>,
    n: usize, ne: int, i: int, j: int, a: usize, b: usize,
)
    requires
        0 <= i < lists.len(),
        0 <= j < lists[i].1@.len(),
        lists[i].1@[j] == (a, b),
        (a as int) < n,
        seps.len() == n + 1,
        cursor.len() == n,
        degree.len() == n,
        fill_invariant(rt, lists, seps, cursor, vals, n, ne, i, j),
        forall|x: int|
            0 <= x < n ==> #[trigger] degree[x] == lists_count(lists, x as usize, lists.len() as int),
        forall|x: int|
            0 <= x <= n ==> #[trigger] seps[x] == sum_lists_counts(lists, x, lists.len() as int),
    ensures
        seps[a as int] <= cursor[a as int],
        cursor[a as int] + 1 <= seps[a + 1],
        a == b ==> cursor[a as int] + 2 <= seps[a + 1],
        seps[a + 1] <= seps[n as int],
{
    reveal(fill_invariant);
    lemma_fill_cnt_full_bound(lists, a, i, j);
    lemma_pair_count_nonneg(lists[i].1@, a, j);
    lemma_lists_count_single_bound(lists, a, i);
    assert(seps[a + 1] == seps[a as int] + degree[a as int]);
    lemma_seps_seq_monotone(lists, seps, n, a + 1, n as int);
}

/// The second write of one edge has room, after the first bumped a cursor.
proof fn lemma_fill_room_mid(
    rt: &crate::ruletable::Ruletable, lists: Seq<(String, Vec<(usize, usize)>)>,
    seps: Seq<usize>, cursor0: Seq<usize>, cursor: Seq<usize>, vals: Seq<(usize, usize)>,
    degree: Seq<usize>, n: usize, ne: int, i: int, j: int, a: usize, b: usize,
)
    requires
        0 <= i < lists.len(),
        0 <= j < lists[i].1@.len(),
        lists[i].1@[j] == (a, b),
        (a as int) < n,
        (b as int) < n,
        seps.len() == n + 1,
        cursor0.len() == n,
        cursor == cursor0.update(a as int, (cursor0[a as int] + 1) as usize),
        degree.len() == n,
        fill_invariant(rt, lists, seps, cursor0, vals, n, ne, i, j),
        forall|x: int|
            0 <= x < n ==> #[trigger] degree[x] == lists_count(lists, x as usize, lists.len() as int),
        forall|x: int|
            0 <= x <= n ==> #[trigger] seps[x] == sum_lists_counts(lists, x, lists.len() as int),
        a == b ==> cursor0[a as int] + 2 <= seps[a + 1],
    ensures
        seps[b as int] <= cursor[b as int],
        cursor[b as int] + 1 <= seps[b + 1],
        seps[b + 1] <= seps[n as int],
{
    reveal(fill_invariant);
    lemma_fill_cnt_full_bound(lists, b, i, j);
    lemma_pair_count_nonneg(lists[i].1@, b, j);
    assert(seps[b + 1] == seps[b as int] + degree[b as int]);
    lemma_seps_seq_monotone(lists, seps, n, b + 1, n as int);
    if a == b {
    } else {
        assert(cursor[b as int] == cursor0[b as int]);
    }
}

/// Before any edge is processed the fill bookkeeping holds trivially.
proof fn lemma_fill_init(
    rt: &crate::ruletable::Ruletable, lists: Seq<(String, Vec<(usize, usize)>)>,
    seps: Seq<usize>, cursor: Seq<usize>, vals: Seq<(usize, usize)>, n: usize, ne: int,
)
    requires
        cursor.len() == n,
        seps.len() == n + 1,
        vals.len() == seps[n as int],
        forall|x: int|
            0 <= x <= n ==> #[trigger] seps[x] == sum_lists_counts(lists, x, lists.len() as int),
        forall|x: int| 0 <= x < n ==> #[trigger] cursor[x] == seps[x],
    ensures
        fill_invariant(rt, lists, seps, cursor, vals, n, ne, 0, 0),
{
    reveal(fill_invariant);
    assert forall|u: int| 0 <= u < n implies #[trigger] cursor[u] == seps[u] + fill_cnt(
        lists, u as usize, 0, 0,
    ) by {
        if 0 < lists.len() {
            assert(pair_count(lists[0].1@, u as usize, 0) == 0);
        }
    }
    assert forall|u: int|
        0 <= u < n implies vals.subrange(seps[u] as int, (#[trigger] cursor[u]) as int)
        == fill_arcs(rt, lists, u as usize, 0, 0) by {
        lemma_seps_seq_monotone(lists, seps, n, u, n as int);
        assert(vals.subrange(seps[u] as int, cursor[u] as int) =~= Seq::<(usize, usize)>::empty());
        assert(fill_arcs(rt, lists, u as usize, 0, 0) =~= Seq::<(usize, usize)>::empty());
    }
}

/// Taking in more edges of one list only appends to a vertex's arcs.
proof fn lemma_list_arcs_prefix(
    rt: &crate::ruletable::Ruletable, lists: Seq<(String, Vec<(usize, usize)>)>, u: usize,
    i: int, j1: int, j2: int,
)
    requires
        0 <= j1 <= j2,
    ensures
        list_arcs(rt, lists, u, i, j1).len() <= list_arcs(rt, lists, u, i, j2).len(),
        forall|q: int|
            0 <= q < list_arcs(rt, lists, u, i, j1).len() ==> #[trigger] list_arcs(
                rt, lists, u, i, j2,
            )[q] == list_arcs(rt, lists, u, i, j1)[q],
    decreases j2,
{
    if j1 < j2 {
        lemma_list_arcs_prefix(rt, lists, u, i, j1, j2 - 1);
    }
}

/// Taking in more lists only appends to a vertex's arcs.
proof fn lemma_lists_arcs_prefix(
    rt: &crate::ruletable::Ruletable, lists: Seq<(String, Vec<(usize, usize)>)>, u: usize,
    i1: int, i2: int,
)
    requires
        0 <= i1 <= i2,
    ensures
        lists_arcs(rt, lists, u, i1).len() <= lists_arcs(rt, lists, u, i2).len(),
        forall|q: int|
            0 <= q < lists_arcs(rt, lists, u, i1).len() ==> #[trigger] lists_arcs(
                rt, lists, u, i2,
            )[q] == lists_arcs(rt, lists, u, i1)[q],
    decreases i2,
{
    if i1 < i2 {
        lemma_lists_arcs_prefix(rt, lists, u, i1, i2 - 1);
    }
}

/// Every input edge's two arcs stand among the arcs the inputs denote: the
/// edge `(x, y)` of a list whose name resolves to the id pair `(f, r)`
/// contributes `(y, f)` at `x` and `(x, r)` at `y`.  For a symmetric edge
/// type, `f == r`, so both arcs carry the same edge-type id.
pub proof fn lemma_input_edge_arcs(
    rt: &crate::ruletable::Ruletable, lists: Seq<(String, Vec<(usize, usize)>)>, i: int, j: int,
)
    requires
        0 <= i < lists.len(),
        0 <= j < lists[i].1@.len(),
        crate::strutil::find_pair(
            crate::strutil::pair_views_of(rt.edges_spec()), lists[i].0@,
        ) is Some,
    ensures
        ({
            let k = crate::strutil::find_pair(
                crate::strutil::pair_views_of(rt.edges_spec()), lists[i].0@,
            )->Some_0;
            let pr = lists[i].1@[j];
            let ids = rt.edges_spec()[k].1;
            input_arcs(rt, lists, pr.0).contains((pr.1, ids.0)) && input_arcs(
                rt, lists, pr.1,
            ).contains((pr.0, ids.1))
        }),
{
    let k = crate::strutil::find_pair(
        crate::strutil::pair_views_of(rt.edges_spec()), lists[i].0@,
    )->Some_0;
    let pr = lists[i].1@[j];
    let ids = rt.edges_spec()[k].1;
    let m = lists[i].1@.len() as int;
    // the forward arc at pr.0
    let fwd_at = list_arcs(rt, lists, pr.0, i, j).len() as int;
    assert(list_arcs(rt, lists, pr.0, i, j + 1)[fwd_at] == (pr.1, ids.0));
    lemma_list_arcs_prefix(rt, lists, pr.0, i, j + 1, m);
    assert(list_arcs(rt, lists, pr.0, i, m)[fwd_at] == (pr.1, ids.0));
    lemma_lists_arcs_prefix(rt, lists, pr.0, i + 1, lists.len() as int);
    assert(lists_arcs(rt, lists, pr.0, i + 1) == lists_arcs(rt, lists, pr.0, i) + list_arcs(
        rt, lists, pr.0, i, m,
    ));
    let fwd_full = lists_arcs(rt, lists, pr.0, i).len() + fwd_at;
    assert(lists_arcs(rt, lists, pr.0, i + 1)[fwd_full] == (pr.1, ids.0));
    assert(input_arcs(rt, lists, pr.0)[fwd_full] == (pr.1, ids.0));
    assert(input_arcs(rt, lists, pr.0).contains((pr.1, ids.0)));
    // the reverse arc at pr.1
    let rev_at = list_arcs(rt, lists, pr.1, i, j).len() + (if pr.0 == pr.1 {
        1int
    } else {
        0int
    });
    assert(list_arcs(rt, lists, pr.1, i, j + 1)[rev_at] == (pr.0, ids.1));
    lemma_list_arcs_prefix(rt, lists, pr.1, i, j + 1, m);
    assert(list_arcs(rt, lists, pr.1, i, m)[rev_at] == (pr.0, ids.1));
    lemma_lists_arcs_prefix(rt, lists, pr.1, i + 1, lists.len() as int);
    assert(lists_arcs(rt, lists, pr.1, i + 1) == lists_arcs(rt, lists, pr.1, i) + list_arcs(
        rt, lists, pr.1, i, m,
    ));
    let rev_full = lists_arcs(rt, lists, pr.1, i).len() + rev_at;
    assert(lists_arcs(rt, lists, pr.1, i + 1)[rev_full] == (pr.0, ids.1));
    assert(input_arcs(rt, lists, pr.1)[rev_full] == (pr.0, ids.1));
    assert(input_arcs(rt, lists, pr.1).contains((pr.0, ids.1)));
}

/// A graph built from the inputs holds both arcs of every input edge: the
/// arc to the neighbor under the name's forward id, and the arc back under
/// its reverse id.  A symmetric edge type shows the same id in both
/// directions.
pub proof fn lemma_graph_holds_input_edges(
    rt: &crate::ruletable::Ruletable, lists: Seq<(String, Vec<(usize, usize)>)>, g: &Graph,
    i: int, j: int,
)
    requires
        0 <= i < lists.len(),
        0 <= j < lists[i].1@.len(),
        crate::strutil::find_pair(
            crate::strutil::pair_views_of(rt.edges_spec()), lists[i].0@,
        ) is Some,
        g.n_spec() == lists_max(lists, lists.len() as int) + 1,
        forall|u: int|
            0 <= u < g.n_spec() ==> #[trigger] g.neighbors_spec(u) == input_arcs(
                rt, lists, u as usize,
            ),
    ensures
        ({
            let k = crate::strutil::find_pair(
                crate::strutil::pair_views_of(rt.edges_spec()), lists[i].0@,
            )->Some_0;
            let pr = lists[i].1@[j];
            let ids = rt.edges_spec()[k].1;
            graph_arc(g, pr.0, pr.1, ids.0) && graph_arc(g, pr.1, pr.0, ids.1)
        }),
{
    lemma_pair_max_covers(lists[i].1@, lists[i].1@.len() as int, j);
    lemma_lists_max_covers_self(lists, i);
    lemma_lists_max_mono(lists, i + 1, lists.len() as int);
    lemma_input_edge_arcs(rt, lists, i, j);
    let pr = lists[i].1@[j];
    let k = crate::strutil::find_pair(
        crate::strutil::pair_views_of(rt.edges_spec()), lists[i].0@,
    )->Some_0;
    let ids = rt.edges_spec()[k].1;
    let q1 = choose|q: int|
        0 <= q < input_arcs(rt, lists, pr.0).len() && input_arcs(rt, lists, pr.0)[q] == (
        pr.1, ids.0,
    );
    assert(g.neighbors_spec(pr.0 as int)[q1] == (pr.1, ids.0));
    let q2 = choose|q: int|
        0 <= q < input_arcs(rt, lists, pr.1).len() && input_arcs(rt, lists, pr.1)[q] == (
        pr.0, ids.1,
    );
    assert(g.neighbors_spec(pr.1 as int)[q2] == (pr.0, ids.1));
}

/// A write position inside one vertex's region lies outside every other
/// vertex's region.
proof fn lemma_write_pos_outside(
    lists: Seq<(String, Vec<(usize, usize)>)>, seps: Seq<usize>, n: usize, u: int, x: usize,
    pos: int,
)
    requires
        seps.len() == n + 1,
        0 <= u < n,
        (x as int) < n,
        u != x as int,
        forall|y: int|
            0 <= y <= n ==> #[trigger] seps[y] == sum_lists_counts(lists, y, lists.len() as int),
        seps[x as int] <= pos < seps[x + 1],
    ensures
        !(seps[u] <= pos < seps[u + 1]),
{
    if u < x as int {
        lemma_seps_seq_monotone(lists, seps, n, u + 1, x as int);
    } else {
        lemma_seps_seq_monotone(lists, seps, n, x as int + 1, u);
    }
}

/// Processing one edge advances the fill bookkeeping by its two writes.
#[verifier::rlimit(100)]
proof fn lemma_fill_step(
    rt: &crate::ruletable::Ruletable, lists: Seq<(String, Vec<(usize, usize)>)>,
    seps: Seq<usize>, cursor0: Seq<usize>, cursor: Seq<usize>, vals0: Seq<(usize, usize)>,
    vals: Seq<(usize, usize)>, n: usize, ne: int, i: int, j: int, a: usize, b: usize,
    pr_ids: (usize, usize),
)
    requires
        0 <= i < lists.len(),
        0 <= j < lists[i].1@.len(),
        lists[i].1@[j] == (a, b),
        (a as int) < n,
        (b as int) < n,
        (pr_ids.0 as int) < ne,
        (pr_ids.1 as int) < ne,
        match crate::strutil::find_pair(
            crate::strutil::pair_views_of(rt.edges_spec()), lists[i].0@,
        ) {
            Option::Some(k) => pr_ids == rt.edges_spec()[k].1,
            Option::None => false,
        },
        seps.len() == n + 1,
        cursor0.len() == n,
        vals0.len() == seps[n as int],
        fill_invariant(rt, lists, seps, cursor0, vals0, n, ne, i, j),
        seps[a as int] <= cursor0[a as int],
        cursor0[a as int] + 1 <= seps[a + 1],
        a == b ==> cursor0[a as int] + 2 <= seps[a + 1],
        seps[b as int] <= cursor0.update(a as int, (cursor0[a as int] + 1) as usize)[b as int],
        cursor0.update(a as int, (cursor0[a as int] + 1) as usize)[b as int] + 1 <= seps[b + 1],
        cursor == cursor0.update(a as int, (cursor0[a as int] + 1) as usize).update(
            b as int,
            (cursor0.update(a as int, (cursor0[a as int] + 1) as usize)[b as int] + 1) as usize,
        ),
        vals == vals0.update(cursor0[a as int] as int, (b, pr_ids.0)).update(
            cursor0.update(a as int, (cursor0[a as int] + 1) as usize)[b as int] as int,
            (a, pr_ids.1),
        ),
        forall|x: int|
            0 <= x <= n ==> #[trigger] seps[x] == sum_lists_counts(lists, x, lists.len() as int),
    ensures
        fill_invariant(rt, lists, seps, cursor, vals, n, ne, i, j + 1),
{
    reveal(fill_invariant);
    let cursor1 = cursor0.update(a as int, (cursor0[a as int] + 1) as usize);
    let pos_a = cursor0[a as int] as int;
    let pos_b = cursor1[b as int] as int;
    lemma_seps_seq_monotone(lists, seps, n, a + 1, n as int);
    lemma_seps_seq_monotone(lists, seps, n, b + 1, n as int);
    assert forall|u: int| 0 <= u < n implies #[trigger] cursor[u] == seps[u] + fill_cnt(
        lists, u as usize, i, j + 1,
    ) by {
        assert(pair_count(lists[i].1@, u as usize, j + 1) == pair_count(
            lists[i].1@, u as usize, j,
        ) + (if lists[i].1@[j].0 == u as usize {
            1int
        } else {
            0int
        }) + (if lists[i].1@[j].1 == u as usize {
            1int
        } else {
            0int
        }));
    }
    assert forall|u: int, q: int|
        0 <= u < n && #[trigger] seps[u] <= q < cursor[u] implies (#[trigger] vals[q]).0 < n
        && vals[q].1 < ne by {
        if q == pos_a || q == pos_b {
        } else {
            assert(seps[u] <= q < cursor0[u]) by {
                if u == a as int && a == b {
                    assert(cursor[u] == pos_a + 2);
                } else if u == a as int {
                    assert(cursor[u] == pos_a + 1);
                } else if u == b as int {
                    assert(cursor[u] == pos_b + 1);
                } else {
                    assert(cursor[u] == cursor0[u]);
                }
            }
            lemma_fill_cnt_full_bound(lists, u as usize, i, j);
            assert(seps[u + 1] == seps[u] + lists_count(lists, u as usize, lists.len() as int));
            lemma_seps_seq_monotone(lists, seps, n, u + 1, n as int);
            assert(0 <= q < vals0.len());
            assert(vals[q] == vals0[q]);
        }
    }
    assert forall|u: int|
        0 <= u < n implies vals.subrange(seps[u] as int, (#[trigger] cursor[u]) as int)
        == fill_arcs(rt, lists, u as usize, i, j + 1) by {
        lemma_fill_cnt_full_bound(lists, u as usize, i, j);
        assert(seps[u + 1] == seps[u] + lists_count(lists, u as usize, lists.len() as int));
        lemma_seps_seq_monotone(lists, seps, n, u + 1, n as int);
        assert(list_arcs(rt, lists, u as usize, i, j + 1) == list_arcs(
            rt, lists, u as usize, i, j,
        ) + (if a == u as usize {
            seq![(b, pr_ids.0)]
        } else {
            seq![]
        }) + (if b == u as usize {
            seq![(a, pr_ids.1)]
        } else {
            seq![]
        }));
        if u == a as int && u == b as int {
            assert(vals.subrange(seps[u] as int, cursor[u] as int) =~= vals0.subrange(
                seps[u] as int, cursor0[u] as int,
            ).push((b, pr_ids.0)).push((a, pr_ids.1)));
            assert(fill_arcs(rt, lists, u as usize, i, j + 1) =~= fill_arcs(
                rt, lists, u as usize, i, j,
            ).push((b, pr_ids.0)).push((a, pr_ids.1)));
        } else if u == a as int {
            lemma_write_pos_outside(lists, seps, n, u, b, pos_b);
            assert(vals.subrange(seps[u] as int, cursor[u] as int) =~= vals0.subrange(
                seps[u] as int, cursor0[u] as int,
            ).push((b, pr_ids.0)));
            assert(fill_arcs(rt, lists, u as usize, i, j + 1) =~= fill_arcs(
                rt, lists, u as usize, i, j,
            ).push((b, pr_ids.0)));
        } else if u == b as int {
            lemma_write_pos_outside(lists, seps, n, u, a, pos_a);
            assert(vals.subrange(seps[u] as int, cursor[u] as int) =~= vals0.subrange(
                seps[u] as int, cursor0[u] as int,
            ).push((a, pr_ids.1)));
            assert(fill_arcs(rt, lists, u as usize, i, j + 1) =~= fill_arcs(
                rt, lists, u as usize, i, j,
            ).push((a, pr_ids.1)));
        } else {
            lemma_write_pos_outside(lists, seps, n, u, a, pos_a);
            lemma_write_pos_outside(lists, seps, n, u, b, pos_b);
            assert(vals.subrange(seps[u] as int, cursor[u] as int) =~= vals0.subrange(
                seps[u] as int, cursor0[u] as int,
            ));
        }
    }
}

/// Finishing one list rolls the fill position over to the next.
proof fn lemma_fill_roll_over(
    rt: &crate::ruletable::Ruletable, lists: Seq<(String, Vec<(usize, usize)>)>,
    seps: Seq<usize>, cursor: Seq<usize>, vals: Seq<(usize, usize)>, n: usize, ne: int, i: int,
)
    requires
        0 <= i < lists.len(),
        fill_invariant(rt, lists, seps, cursor, vals, n, ne, i, lists[i].1@.len() as int),
    ensures
        fill_invariant(rt, lists, seps, cursor, vals, n, ne, i + 1, 0),
{
    reveal(fill_invariant);
    let m = lists[i].1@.len() as int;
    assert forall|u: int| 0 <= u < n implies #[trigger] cursor[u] == seps[u] + fill_cnt(
        lists, u as usize, i + 1, 0,
    ) by {
        assert(lists_count(lists, u as usize, i + 1) == lists_count(lists, u as usize, i)
            + pair_count(lists[i].1@, u as usize, m));
    }
    assert forall|u: int|
        0 <= u < n implies vals.subrange(seps[u] as int, (#[trigger] cursor[u]) as int)
        == fill_arcs(rt, lists, u as usize, i + 1, 0) by {
        assert(lists_arcs(rt, lists, u as usize, i + 1) == lists_arcs(rt, lists, u as usize, i)
            + list_arcs(rt, lists, u as usize, i, m));
        assert(list_arcs(rt, lists, u as usize, i + 1, 0) =~= Seq::<(usize, usize)>::empty());
        assert(fill_arcs(rt, lists, u as usize, i + 1, 0) =~= fill_arcs(
            rt, lists, u as usize, i, m,
        ));
    }
}

/// After the last list the fill is complete and the structure is a
/// well-formed graph with in-range arc labels.
#[verifier::rlimit(100)]
proof fn lemma_fill_done(
    rt: &crate::ruletable::Ruletable, lists: Seq<(String, Vec<(usize, usize)>)>, g: &Graph,
    cursor: Seq<usize>, degree: Seq<usize>, n: usize, ne: int, nlists: int,
)
    requires
        nlists == lists.len(),
        g.n_spec() == n,
        g.seps_spec().len() == n + 1,
        g.vals_spec().len() == g.seps_spec()[n as int],
        g.vals_spec().len() <= usize::MAX,
        cursor.len() == n,
        degree.len() == n,
        forall|x: int|
            0 <= x < n ==> #[trigger] degree[x] == lists_count(lists, x as usize, lists.len() as int),
        forall|x: int|
            0 <= x <= n ==> #[trigger] g.seps_spec()[x] == sum_lists_counts(
                lists, x, lists.len() as int,
            ),
        fill_invariant(rt, lists, g.seps_spec(), cursor, g.vals_spec(), n, ne, nlists, 0),
    ensures
        g.wf(),
        g.labels_below(ne),
        forall|u: int| 0 <= u < n ==> #[trigger] cursor[u] == g.seps_spec()[u + 1],
{
    reveal(fill_invariant);
    let seps = g.seps_spec();
    let vals = g.vals_spec();
    assert forall|u: int| 0 <= u < n implies #[trigger] cursor[u] == seps[u + 1] by {
        assert(cursor[u] == seps[u] + fill_cnt(lists, u as usize, nlists, 0));
        assert(seps[u + 1] == sum_lists_counts(lists, u + 1, lists.len() as int));
    }
    assert(seps[0] == 0);
    assert forall|x: int| 0 <= x < n implies #[trigger] seps[x] <= seps[x + 1] by {
        lemma_seps_seq_monotone(lists, seps, n, x, x + 1);
    }
    assert forall|q: int| 0 <= q < vals.len() implies (#[trigger] vals[q]).0 < n && vals[q].1
        < ne by {
        lemma_slot_region(seps, n as int, q);
        let u = choose|u: int| 0 <= u < n && #[trigger] seps[u] <= q && q < seps[u + 1];
        assert(seps[u] <= q < cursor[u]);
    }
    assert(g.wf());
}

/// With the fill complete, each vertex's region of the flat list is exactly
/// the arc sequence the inputs denote for it.
proof fn lemma_fill_done_arcs(
    rt: &crate::ruletable::Ruletable, lists: Seq<(String, Vec<(usize, usize)>)>, g: &Graph,
    cursor: Seq<usize>, n: usize, ne: int, nlists: int,
)
    requires
        nlists == lists.len(),
        g.n_spec() == n,
        g.seps_spec().len() == n + 1,
        g.vals_spec().len() == g.seps_spec()[n as int],
        cursor.len() == n,
        forall|u: int| 0 <= u < n ==> #[trigger] cursor[u] == g.seps_spec()[u + 1],
        fill_invariant(rt, lists, g.seps_spec(), cursor, g.vals_spec(), n, ne, nlists, 0),
    ensures
        forall|u: int|
            0 <= u < n ==> #[trigger] g.neighbors_spec(u) == input_arcs(rt, lists, u as usize),
{
    reveal(fill_invariant);
    let seps = g.seps_spec();
    let vals = g.vals_spec();
    assert forall|u: int|
        0 <= u < n implies #[trigger] g.neighbors_spec(u) == input_arcs(
        rt, lists, u as usize,
    ) by {
        assert(vals.subrange(seps[u] as int, cursor[u] as int) == fill_arcs(
            rt, lists, u as usize, nlists, 0,
        ));
        assert(list_arcs(rt, lists, u as usize, nlists, 0) =~= Seq::<(usize, usize)>::empty());
        assert(fill_arcs(rt, lists, u as usize, nlists, 0) =~= input_arcs(
            rt, lists, u as usize,
        ));
    }
}

/// Every member of every set lies below `n`.
pub open spec fn sets_bounded(rows: Seq<Seq<bool>>, n: int) -> bool {
    forall|id: int| 0 <= id < rows.len() ==> #[trigger] rows[id].len() <= n
}

/// The members listed by `members_below` are exactly the set bits.
pub proof fn lemma_members_below_iff(row: Seq<bool>, n: int, x: usize)
    requires
        n <= usize::MAX,
    ensures
        members_below(row, n).contains(x) <==> (x < n && 0 <= (x as int) < row.len()
            && row[x as int]),
    decreases n,
{
    if n > 0 {
        lemma_members_below_iff(row, n - 1, x);
        let prev = members_below(row, n - 1);
        let tail: Seq<usize> = if 0 <= n - 1 < row.len() && row[n - 1] {
            seq![(n - 1) as usize]
        } else {
            seq![]
        };
        assert(members_below(row, n) == prev + tail);
        if prev.contains(x) {
            let i = choose|i: int| 0 <= i < prev.len() && prev[i] == x;
            assert((prev + tail)[i] == x);
        }
        if tail.contains(x) {
            let i = choose|i: int| 0 <= i < tail.len() && tail[i] == x;
            assert((prev + tail)[prev.len() + i] == x);
        }
        if 0 <= n - 1 < row.len() && row[n - 1] && x as int == n - 1 {
            assert(tail[0] == x);
            assert(tail.contains(x));
        }
        if (prev + tail).contains(x) {
            let i = choose|i: int| 0 <= i < (prev + tail).len() && (prev + tail)[i] == x;
            if i < prev.len() {
                assert(prev[i] == x);
            } else {
                assert(tail[i - prev.len()] == x);
            }
        }
    }
}

} // verus!
