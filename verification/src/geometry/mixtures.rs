//! The order in which mixtures are defined: each after the mixtures it is
//! made of, directly or not. A mixture made, in the end, of itself is
//! refused.
use crate::utils::text::str_eq;
use vstd::prelude::*;

verus! {

/// A mixture, by its name and the names of its components (some of which
/// name other mixtures).
pub struct MixtureDeps {
    pub name: String,
    pub components: Vec<String>,
}

/// Mathematical view of mixtures: names and component names.
pub open spec fn mix_views(ms: Seq<MixtureDeps>) -> Seq<(Seq<char>, Seq<Seq<char>>)> {
    ms.map_values(|m: MixtureDeps| (m.name@, m.components@.map_values(|c: String| c@)))
}

/// The position of the last mixture named `name`, if any: the one a name
/// stands for.
#[verifier::opaque]
pub open spec fn last_named(ms: Seq<(Seq<char>, Seq<Seq<char>>)>, name: Seq<char>) -> Option<int> {
    if exists|i: int| 0 <= i < ms.len() && ms[i].0 == name {
        Some(choose|i: int| 0 <= i < ms.len() && ms[i].0 == name
            && forall|k: int| i < k < ms.len() ==> ms[k].0 != name)
    } else {
        None
    }
}

proof fn lemma_last_named_exists(ms: Seq<(Seq<char>, Seq<Seq<char>>)>, name: Seq<char>, j: int)
    requires
        0 <= j < ms.len(),
        ms[j].0 == name,
    ensures
        exists|i: int| 0 <= i < ms.len() && ms[i].0 == name
            && forall|k: int| i < k < ms.len() ==> ms[k].0 != name,
    decreases ms.len() - j,
{
    if exists|i: int| j < i < ms.len() && ms[i].0 == name {
        let i = choose|i: int| j < i < ms.len() && ms[i].0 == name;
        lemma_last_named_exists(ms, name, i);
    } else {
        assert(forall|k: int| j < k < ms.len() ==> ms[k].0 != name);
    }
}

/// What the last mixture named `name` is.
pub proof fn lemma_last_named(ms: Seq<(Seq<char>, Seq<Seq<char>>)>, name: Seq<char>)
    ensures
        match last_named(ms, name) {
            Some(i) => 0 <= i < ms.len() && ms[i].0 == name
                && forall|k: int| i < k < ms.len() ==> ms[k].0 != name,
            None => forall|k: int| 0 <= k < ms.len() ==> ms[k].0 != name,
        },
{
    reveal(last_named);
    if exists|i: int| 0 <= i < ms.len() && ms[i].0 == name {
        let j = choose|i: int| 0 <= i < ms.len() && ms[i].0 == name;
        lemma_last_named_exists(ms, name, j);
    }
}

/// The outcome of gathering the mixtures a mixture is made of.
pub ghost enum Walk {
    /// The positions of the mixtures found.
    Done(Set<int>),
    /// The mixture named first is made of itself, through the one named
    /// second.
    Cycle(Seq<char>, Seq<char>),
    /// The gathering would never end: it comes back to a mixture it is
    /// still looking into.
    Endless,
}

/// Gathers, in `acc`, the mixtures the mixture at `x` is made of, from its
/// `k`-th component on, looking for `root` and going down into each
/// component that is a mixture; `stack` holds the mixtures being looked
/// into.
pub open spec fn walk(
    ms: Seq<(Seq<char>, Seq<Seq<char>>)>,
    root: Seq<char>,
    x: int,
    k: int,
    stack: Seq<int>,
    acc: Set<int>,
) -> Walk
    decreases (if stack.len() < ms.len() { ms.len() - stack.len() } else { 0 }), ms[x].1.len() - k,
{
    if k < 0 || k >= ms[x].1.len() {
        Walk::Done(acc)
    } else {
        let c = ms[x].1[k];
        if c == root {
            Walk::Cycle(root, ms[x].0)
        } else {
            match last_named(ms, c) {
                None => walk(ms, root, x, k + 1, stack, acc),
                Some(j) => if stack.contains(j) || stack.len() >= ms.len() {
                    Walk::Endless
                } else {
                    match walk(ms, root, j, 0, stack.push(j), acc) {
                        Walk::Done(acc2) => walk(ms, root, x, k + 1, stack, acc2.insert(j)),
                        other => other,
                    }
                },
            }
        }
    }
}

/// The mixtures the mixture at `i` is made of.
pub open spec fn made_of(ms: Seq<(Seq<char>, Seq<Seq<char>>)>, i: int) -> Walk {
    walk(ms, ms[i].0, i, 0, Seq::empty(), Set::empty())
}

/// Whether the gathering for each mixture before the first refused one ends.
pub open spec fn walks_end(ms: Seq<(Seq<char>, Seq<Seq<char>>)>) -> bool {
    forall|i: int| 0 <= i < ms.len() && (forall|k: int| 0 <= k < i ==> made_of(ms, k) is Done)
        ==> !(#[trigger] made_of(ms, i) is Endless)
}

/// The first refused mixture, if any, with the mixture it is made of itself
/// through.
pub open spec fn first_cycle(ms: Seq<(Seq<char>, Seq<Seq<char>>)>, i: int) -> Option<(Seq<char>, Seq<char>)>
    decreases ms.len() - i,
{
    if i < 0 || i >= ms.len() {
        None
    } else {
        match made_of(ms, i) {
            Walk::Cycle(a, b) => Some((a, b)),
            _ => first_cycle(ms, i + 1),
        }
    }
}

/// Why mixtures are refused: one is made of itself.
pub struct MixtureError {
    pub root: String,
    pub through: String,
}

/// The text explaining a cycle between `a` and `b`.
pub open spec fn cycle_text(a: Seq<char>, b: Seq<char>) -> Seq<char> {
    "cycle between '"@ + a + "' and '"@ + b + "'"@
}

impl MixtureError {
    /// The text explaining this error.
    pub fn why(&self) -> (r: String)
        ensures
            r@ == cycle_text(self.root@, self.through@),
    {
        let mut text = String::from_str("cycle between '");
        text.append(self.root.as_str());
        text.append("' and '");
        text.append(self.through.as_str());
        text.append("'");
        text
    }
}

/// The position of the last mixture named `name`.
fn last_position(ms: &Vec<MixtureDeps>, name: &str) -> (r: Option<usize>)
    ensures
        match (r, last_named(mix_views(ms@), name@)) {
            (Some(i), Some(j)) => i == j,
            (None, None) => true,
            _ => false,
        },
{
    let ghost v = mix_views(ms@);
    let mut i: usize = ms.len();
    while i > 0
        invariant
            v == mix_views(ms@),
            0 <= i <= ms@.len(),
            forall|k: int| i <= k < ms@.len() ==> v[k].0 != name@,
        decreases i,
    {
        let same = str_eq(ms[i - 1].name.as_str(), name);
        assert(v[i - 1].0 == ms@[i - 1].name@);
        if same {
            proof {
                lemma_last_named(v, name@);
                let l = last_named(v, name@)->0;
                if l < i - 1 {
                } else if l > i - 1 {
                }
            }
            return Some(i - 1);
        }
        i = i - 1;
    }
    proof {
        lemma_last_named(v, name@);
    }
    None
}

/// The positions marked in `marks`.
pub open spec fn marked(marks: Seq<bool>) -> Set<int> {
    Set::new(|j: int| 0 <= j < marks.len() && marks[j])
}

/// What gathering from one mixture came to.
enum Gathered {
    Done,
    Cycle(MixtureError),
    Endless,
}

/// Gathers, in `acc`, the mixtures the mixture at `x` is made of, from its
/// `k`-th component on; `on_stack` marks the mixtures being looked into,
/// `depth` of them.
fn gather(
    ms: &Vec<MixtureDeps>,
    root: &str,
    x: usize,
    k: usize,
    depth: usize,
    Ghost(stack): Ghost<Seq<int>>,
    on_stack: &mut Vec<bool>,
    acc: &mut Vec<bool>,
) -> (r: Gathered)
    requires
        x < ms@.len(),
        old(acc)@.len() == ms@.len(),
        old(on_stack)@.len() == ms@.len(),
        depth == stack.len(),
        forall|j: int| 0 <= j < ms@.len() ==> (old(on_stack)@[j] <==> stack.contains(j)),
    ensures
        final(on_stack)@ == old(on_stack)@,
        final(acc)@.len() == ms@.len(),
        match walk(mix_views(ms@), root@, x as int, k as int, stack, marked(old(acc)@)) {
            Walk::Done(s) => r is Done && marked(final(acc)@) == s,
            Walk::Cycle(a, b) => r matches Gathered::Cycle(e) && e.root@ == a && e.through@ == b,
            Walk::Endless => r is Endless,
        },
    decreases (if stack.len() < ms@.len() { ms@.len() - stack.len() } else { 0 }), ms@[x as int].components@.len() - k,
{
    let ghost v = mix_views(ms@);
    let comps = &ms[x].components;
    assert(v[x as int].1 == comps@.map_values(|c: String| c@));
    if k >= comps.len() {
        return Gathered::Done;
    }
    let c = comps[k].as_str();
    assert(v[x as int].1[k as int] == c@);
    if str_eq(c, root) {
        assert(v[x as int].0 == ms@[x as int].name@);
        return Gathered::Cycle(MixtureError { root: String::from_str(root), through: ms[x].name.clone() });
    }
    proof {
        lemma_last_named(v, c@);
    }
    match last_position(ms, c) {
        None => gather(ms, root, x, k + 1, depth, Ghost(stack), on_stack, acc),
        Some(j) => {
            if on_stack[j] || depth >= ms.len() {
                return Gathered::Endless;
            }
            let ghost before_stack = on_stack@;
            on_stack.set(j, true);
            assert forall|q: int| 0 <= q < ms@.len() implies (on_stack@[q] <==> stack.push(j as int).contains(q)) by {
                if q != j {
                    if stack.push(j as int).contains(q) {
                        let w = choose|w: int| 0 <= w < stack.len() + 1 && stack.push(j as int)[w] == q;
                        assert(stack[w] == q);
                    }
                    if stack.contains(q) {
                        let w = choose|w: int| 0 <= w < stack.len() && stack[w] == q;
                        assert(stack.push(j as int)[w] == q);
                    }
                } else {
                    assert(stack.push(j as int)[stack.len() as int] == q);
                }
            }
            let r = gather(ms, root, j, 0, depth + 1, Ghost(stack.push(j as int)), on_stack, acc);
            on_stack.set(j, false);
            assert(on_stack@ =~= before_stack);
            match r {
                Gathered::Done => {},
                other => {
                    return other;
                },
            }
            let ghost before = marked(acc@);
            acc.set(j, true);
            assert(marked(acc@) =~= before.insert(j as int));
            gather(ms, root, x, k + 1, depth, Ghost(stack), on_stack, acc)
        },
    }
}

/// What gathering from every mixture came to.
enum GatheredAll {
    /// The mixtures each is made of, marked by position.
    Deps(Vec<Vec<bool>>),
    Cycle(MixtureError),
    Endless,
}

/// `n` marks, none set.
fn no_marks(n: usize) -> (r: Vec<bool>)
    ensures
        r@.len() == n,
        forall|j: int| 0 <= j < n ==> !r@[j],
{
    let mut acc: Vec<bool> = Vec::new();
    let mut m: usize = 0;
    while m < n
        invariant
            0 <= m <= n,
            acc@.len() == m,
            forall|j: int| 0 <= j < m ==> !acc@[j],
        decreases n - m,
    {
        acc.push(false);
        m = m + 1;
    }
    acc
}

/// The mixtures each mixture is made of, marked by position, or the first
/// mixture made of itself, or that gathering would not end.
fn gather_all(ms: &Vec<MixtureDeps>) -> (r: GatheredAll)
    ensures
        match r {
            GatheredAll::Deps(deps) => walks_end(mix_views(ms@))
                && first_cycle(mix_views(ms@), 0) is None
                && deps@.len() == ms@.len()
                && (forall|i: int| 0 <= i < ms@.len() ==> #[trigger] deps@[i]@.len() == ms@.len())
                && forall|i: int| 0 <= i < ms@.len() ==> #[trigger] made_of(mix_views(ms@), i)
                    == Walk::Done(marked(deps@[i]@)),
            GatheredAll::Cycle(e) => walks_end(mix_views(ms@))
                && first_cycle(mix_views(ms@), 0) == Some((e.root@, e.through@)),
            GatheredAll::Endless => !walks_end(mix_views(ms@)),
        },
{
    let ghost v = mix_views(ms@);
    let n = ms.len();
    let mut deps: Vec<Vec<bool>> = Vec::new();
    let mut on_stack = no_marks(n);
    let mut i: usize = 0;
    while i < n
        invariant
            n == ms@.len(),
            v == mix_views(ms@),
            0 <= i <= n,
            on_stack@.len() == n,
            forall|j: int| 0 <= j < n ==> !on_stack@[j],
            deps@.len() == i,
            forall|k: int| 0 <= k < i ==> #[trigger] deps@[k]@.len() == n,
            forall|k: int| 0 <= k < i ==> #[trigger] made_of(v, k) == Walk::Done(marked(deps@[k]@)),
            first_cycle(v, 0) == first_cycle(v, i as int),
        decreases n - i,
    {
        let mut acc = no_marks(n);
        assert(marked(acc@) =~= Set::<int>::empty());
        assert(v[i as int].0 == ms@[i as int].name@);
        let r = gather(ms, ms[i].name.as_str(), i, 0, 0, Ghost(Seq::empty()), &mut on_stack, &mut acc);
        match r {
            Gathered::Cycle(e) => {
                assert forall|q: int| 0 <= q < n && (forall|k: int| 0 <= k < q ==> made_of(v, k) is Done)
                    implies !(#[trigger] made_of(v, q) is Endless) by {
                    if q > i {
                        assert(!(made_of(v, i as int) is Done));
                    } else if q < i {
                        assert(made_of(v, q) == Walk::Done(marked(deps@[q]@)));
                    }
                }
                return GatheredAll::Cycle(e);
            },
            Gathered::Endless => {
                assert(forall|k: int| 0 <= k < i ==> made_of(v, k) == Walk::Done(marked(deps@[k]@)));
                assert(made_of(v, i as int) is Endless);
                return GatheredAll::Endless;
            },
            Gathered::Done => {},
        }
        deps.push(acc);
        assert(deps@[i as int] == acc);
        i = i + 1;
    }
    assert forall|q: int| 0 <= q < n && (forall|k: int| 0 <= k < q ==> made_of(v, k) is Done)
        implies !(#[trigger] made_of(v, q) is Endless) by {
        assert(made_of(v, q) == Walk::Done(marked(deps@[q]@)));
    }
    GatheredAll::Deps(deps)
}

/// Whether gathering what each mixture is made of ends, up to the first
/// mixture made of itself: it does not where mixtures are made of one
/// another in a circle that the mixture looked into does not belong to.
pub fn gathering_ends(ms: &Vec<MixtureDeps>) -> (r: bool)
    ensures
        r == walks_end(mix_views(ms@)),
{
    match gather_all(ms) {
        GatheredAll::Endless => false,
        _ => true,
    }
}

/// The mixtures the mixture at each position is made of, when all are
/// gathered.
pub open spec fn all_made_of(ms: Seq<(Seq<char>, Seq<Seq<char>>)>) -> Seq<Set<int>> {
    Seq::new(ms.len(), |i: int| match made_of(ms, i) {
        Walk::Done(s) => s,
        _ => Set::empty(),
    })
}

/// Whether the mixture at `a` is made of the mixture at `b`, by their names:
/// the mixture a name stands for is the last one bearing it.
pub open spec fn depends(ms: Seq<(Seq<char>, Seq<Seq<char>>)>, deps: Seq<Set<int>>, a: int, b: int) -> bool {
    match (last_named(ms, ms[a].0), last_named(ms, ms[b].0)) {
        (Some(la), Some(lb)) => deps[la].contains(lb),
        _ => false,
    }
}

/// The last position after `i`, from `k` on, of a mixture the one at `i` is
/// made of, or else `j`.
pub open spec fn last_dep(
    ms: Seq<(Seq<char>, Seq<Seq<char>>)>,
    deps: Seq<Set<int>>,
    order: Seq<int>,
    i: int,
    k: int,
    j: int,
) -> int
    decreases order.len() - k,
{
    if k >= order.len() {
        j
    } else {
        last_dep(ms, deps, order, i, k + 1, if depends(ms, deps, order[i], order[k]) { k } else { j })
    }
}

/// The order of the mixtures, from the order `order` with the first `i`
/// settled, after at most `fuel` steps: the mixture at `i` moves right after
/// the last one it is made of, or else is settled; the last but one settled,
/// all are.
pub open spec fn sort_steps(
    ms: Seq<(Seq<char>, Seq<Seq<char>>)>,
    deps: Seq<Set<int>>,
    order: Seq<int>,
    i: int,
    fuel: nat,
) -> Option<Seq<int>>
    decreases fuel,
{
    if fuel == 0 {
        None
    } else {
        let j = last_dep(ms, deps, order, i, i + 1, i);
        if j > i {
            sort_steps(ms, deps, order.insert(j + 1, order[i]).remove(i), i, (fuel - 1) as nat)
        } else if i + 1 == order.len() - 1 {
            Some(order)
        } else {
            sort_steps(ms, deps, order, i + 1, (fuel - 1) as nat)
        }
    }
}

/// The positions of `n` mixtures, in order.
pub open spec fn identity(n: nat) -> Seq<int> {
    Seq::new(n, |i: int| i)
}

/// Whether ordering the mixtures ends.
pub open spec fn ordering_ends(ms: Seq<(Seq<char>, Seq<Seq<char>>)>) -> bool {
    exists|fuel: nat| #[trigger] sort_steps(ms, all_made_of(ms), identity(ms.len()), 0, fuel) is Some
}

/// The order in which the mixtures are defined, by position.
pub open spec fn mixture_order(ms: Seq<(Seq<char>, Seq<Seq<char>>)>) -> Seq<int> {
    if ms.len() <= 1 {
        identity(ms.len())
    } else {
        let fuel = choose|fuel: nat| #[trigger] sort_steps(ms, all_made_of(ms), identity(ms.len()), 0, fuel) is Some;
        sort_steps(ms, all_made_of(ms), identity(ms.len()), 0, fuel)->0
    }
}

/// An order, by its view.
pub open spec fn order_view(order: Seq<usize>) -> Seq<int> {
    order.map_values(|i: usize| i as int)
}

/// The orders in which mixtures are defined: each after those it is made
/// of, given by position; or the first mixture made of itself. One mixture
/// alone is not looked into.
pub fn sorted_mixtures(ms: &Vec<MixtureDeps>) -> (r: Result<Vec<usize>, MixtureError>)
    requires
        ms@.len() > 1 ==> walks_end(mix_views(ms@)),
    ensures
        match r {
            Ok(order) => (ms@.len() <= 1 || first_cycle(mix_views(ms@), 0) is None)
                && order_view(order@) == mixture_order(mix_views(ms@))
                && order_view(order@).to_multiset() == identity(ms@.len()).to_multiset()
                && forall|p: int, q: int| 0 <= p < q < ms@.len()
                    ==> !depends(mix_views(ms@), all_made_of(mix_views(ms@)), #[trigger] order@[p] as int, #[trigger] order@[q] as int),
            Err(e) => ms@.len() > 1 && first_cycle(mix_views(ms@), 0) == Some((e.root@, e.through@)),
        },
{
    let ghost v = mix_views(ms@);
    let n = ms.len();
    let mut order: Vec<usize> = Vec::new();
    let mut m: usize = 0;
    while m < n
        invariant
            0 <= m <= n,
            order@.len() == m,
            forall|k: int| 0 <= k < m ==> order@[k] == k,
        decreases n - m,
    {
        order.push(m);
        m = m + 1;
    }
    assert(order_view(order@) =~= identity(n as nat));
    if n <= 1 {
        proof {
            lemma_mixture_order(v);
        }
        return Ok(order);
    }
    let deps = match gather_all(ms) {
        GatheredAll::Deps(deps) => deps,
        GatheredAll::Cycle(e) => {
            return Err(e);
        },
        GatheredAll::Endless => {
            proof {
                assert(false);
            }
            return Ok(order);
        },
    };
    proof {
        lemma_all_done(v);
        lemma_ordering_ends(v);
    }
    let ghost dv = all_made_of(v);
    assert forall|i: int| 0 <= i < n implies #[trigger] dv[i] == marked(deps@[i]@) by {
        assert(made_of(v, i) == Walk::Done(marked(deps@[i]@)));
    }
    // The position each mixture's name stands for.
    let mut last: Vec<usize> = Vec::new();
    let mut m: usize = 0;
    while m < n
        invariant
            n == ms@.len(),
            v == mix_views(ms@),
            0 <= m <= n,
            last@.len() == m,
            forall|k: int| 0 <= k < m ==> #[trigger] last@[k] < n,
            forall|k: int| 0 <= k < m ==> last_named(v, v[k].0) == Some(#[trigger] last@[k] as int),
        decreases n - m,
    {
        assert(v[m as int].0 == ms@[m as int].name@);
        proof {
            lemma_last_named(v, v[m as int].0);
        }
        match last_position(ms, ms[m].name.as_str()) {
            Some(l) => last.push(l),
            None => {
                assert(false);
                last.push(m);
            },
        }
        m = m + 1;
    }
    let ghost fuel0 = choose|fuel: nat| #[trigger] sort_steps(v, dv, identity(n as nat), 0, fuel) is Some;
    let ghost result = sort_steps(v, dv, identity(n as nat), 0, fuel0)->0;
    let ghost mut fuel: nat = fuel0;
    let mut i: usize = 0;
    assert(order_view(order@) =~= identity(n as nat));
    loop
        invariant_except_break
            0 <= i < n - 1,
            sort_steps(v, dv, order_view(order@), i as int, fuel) == Some(result),
        invariant
            n == ms@.len(),
            n > 1,
            v == mix_views(ms@),
            dv == all_made_of(v),
            deps@.len() == n,
            forall|k: int| 0 <= k < n ==> #[trigger] dv[k] == marked(deps@[k]@),
            forall|k: int| 0 <= k < n ==> #[trigger] deps@[k]@.len() == n,
            last@.len() == n,
            forall|k: int| 0 <= k < n ==> #[trigger] last@[k] < n,
            forall|k: int| 0 <= k < n ==> last_named(v, v[k].0) == Some(#[trigger] last@[k] as int),
            order@.len() == n,
            forall|k: int| 0 <= k < n ==> #[trigger] order@[k] < n,
        ensures
            order_view(order@) == result,
        decreases fuel,
    {
        let ghost ov = order_view(order@);
        // The last position after `i` of a mixture the one at `i` is made of.
        let a = last[order[i]];
        proof {
            assert(ov[i as int] == order@[i as int]);
            assert(last_named(v, v[ov[i as int]].0) == Some(a as int));
        }
        let mut j: usize = i;
        let mut k: usize = i + 1;
        while k < n
            invariant
                n == ms@.len(),
                v == mix_views(ms@),
                dv == all_made_of(v),
                deps@.len() == n,
                forall|q: int| 0 <= q < n ==> #[trigger] dv[q] == marked(deps@[q]@),
                forall|q: int| 0 <= q < n ==> #[trigger] deps@[q]@.len() == n,
                last@.len() == n,
                forall|q: int| 0 <= q < n ==> #[trigger] last@[q] < n,
                forall|q: int| 0 <= q < n ==> last_named(v, v[q].0) == Some(#[trigger] last@[q] as int),
                order@.len() == n,
                forall|q: int| 0 <= q < n ==> #[trigger] order@[q] < n,
                ov == order_view(order@),
                0 <= i < k <= n,
                i <= j < n,
                a < n,
                last_named(v, v[ov[i as int]].0) == Some(a as int),
                last_dep(v, dv, ov, i as int, i + 1, i as int) == last_dep(v, dv, ov, i as int, k as int, j as int),
            decreases n - k,
        {
            let b = last[order[k]];
            proof {
                assert(ov[k as int] == order@[k as int]);
                assert(last_named(v, v[ov[k as int]].0) == Some(b as int));
                assert(dv[a as int] == marked(deps@[a as int]@));
                assert(deps@[a as int]@.len() == n);
                assert(depends(v, dv, ov[i as int], ov[k as int]) == marked(deps@[a as int]@).contains(b as int));
            }
            if deps[a][b] {
                j = k;
            }
            k = k + 1;
        }
        proof {
            fuel = (fuel - 1) as nat;
        }
        if j > i {
            let x = order[i];
            order.insert(j + 1, x);
            order.remove(i);
            proof {
                assert(order_view(order@) =~= ov.insert(j + 1, ov[i as int]).remove(i as int));
            }
        } else {
            if i + 1 == n - 1 {
                break;
            }
            i = i + 1;
        }
    }
    proof {
        assert(mixture_order(v) == result);
        lemma_mixture_order(v);
        assert forall|p: int, q: int| 0 <= p < q < n
            implies !depends(v, dv, #[trigger] order@[p] as int, #[trigger] order@[q] as int) by {
            assert(order_view(order@)[p] == order@[p] as int);
            assert(order_view(order@)[q] == order@[q] as int);
        }
    }
    Ok(order)
}

/// What is gathered does not depend on what was gathered before, which it
/// only adds to.
proof fn lemma_walk_acc(
    ms: Seq<(Seq<char>, Seq<Seq<char>>)>,
    root: Seq<char>,
    x: int,
    k: int,
    stack: Seq<int>,
    acc: Set<int>,
)
    ensures
        walk(ms, root, x, k, stack, acc) == match walk(ms, root, x, k, stack, Set::empty()) {
            Walk::Done(s) => Walk::Done(acc.union(s)),
            other => other,
        },
    decreases (if stack.len() < ms.len() { ms.len() - stack.len() } else { 0 }), ms[x].1.len() - k,
{
    if k < 0 || k >= ms[x].1.len() {
        assert(acc.union(Set::empty()) =~= acc);
    } else {
        let c = ms[x].1[k];
        if c != root {
            match last_named(ms, c) {
                None => {
                    lemma_walk_acc(ms, root, x, k + 1, stack, acc);
                },
                Some(j) => {
                    if !(stack.contains(j) || stack.len() >= ms.len()) {
                        lemma_walk_acc(ms, root, j, 0, stack.push(j), acc);
                        if let Walk::Done(t) = walk(ms, root, j, 0, stack.push(j), Set::empty()) {
                            lemma_walk_acc(ms, root, x, k + 1, stack, acc.union(t).insert(j));
                            lemma_walk_acc(ms, root, x, k + 1, stack, t.insert(j));
                            if let Walk::Done(u) = walk(ms, root, x, k + 1, stack, Set::empty()) {
                                assert(acc.union(t).insert(j).union(u) =~= acc.union(t.insert(j).union(u)));
                            }
                        }
                    }
                },
            }
        }
    }
}

/// Two gatherings from the same component that both end well gather the
/// same, whatever they look for and whatever they are looking into.
proof fn lemma_walk_same(
    ms: Seq<(Seq<char>, Seq<Seq<char>>)>,
    r1: Seq<char>,
    r2: Seq<char>,
    x: int,
    k: int,
    st1: Seq<int>,
    st2: Seq<int>,
)
    requires
        walk(ms, r1, x, k, st1, Set::empty()) is Done,
        walk(ms, r2, x, k, st2, Set::empty()) is Done,
    ensures
        walk(ms, r1, x, k, st1, Set::empty()) == walk(ms, r2, x, k, st2, Set::empty()),
    decreases (if st1.len() < ms.len() { ms.len() - st1.len() } else { 0 }), ms[x].1.len() - k,
{
    if 0 <= k < ms[x].1.len() {
        let c = ms[x].1[k];
        match last_named(ms, c) {
            None => {
                lemma_walk_same(ms, r1, r2, x, k + 1, st1, st2);
            },
            Some(j) => {
                lemma_walk_same(ms, r1, r2, j, 0, st1.push(j), st2.push(j));
                let t = walk(ms, r1, j, 0, st1.push(j), Set::empty())->Done_0;
                lemma_walk_acc(ms, r1, x, k + 1, st1, t.insert(j));
                lemma_walk_acc(ms, r2, x, k + 1, st2, t.insert(j));
                lemma_walk_same(ms, r1, r2, x, k + 1, st1, st2);
            },
        }
    }
}

/// What a gathering that ends well adds, it adds by gathering from that
/// mixture on, at some depth, a part of what it gathers.
proof fn lemma_walk_inner(
    ms: Seq<(Seq<char>, Seq<Seq<char>>)>,
    root: Seq<char>,
    x: int,
    k: int,
    stack: Seq<int>,
    acc: Set<int>,
    target: int,
) -> (st: Seq<int>)
    requires
        walk(ms, root, x, k, stack, acc) is Done,
        walk(ms, root, x, k, stack, acc)->Done_0.contains(target),
        !acc.contains(target),
    ensures
        walk(ms, root, target, 0, st, Set::empty()) is Done,
        walk(ms, root, target, 0, st, Set::empty())->Done_0.subset_of(walk(ms, root, x, k, stack, acc)->Done_0),
    decreases (if stack.len() < ms.len() { ms.len() - stack.len() } else { 0 }), ms[x].1.len() - k,
{
    let s = walk(ms, root, x, k, stack, acc)->Done_0;
    let c = ms[x].1[k];
    match last_named(ms, c) {
        None => {
            lemma_walk_inner(ms, root, x, k + 1, stack, acc, target)
        },
        Some(j) => {
            let t = walk(ms, root, j, 0, stack.push(j), acc)->Done_0;
            lemma_walk_acc(ms, root, j, 0, stack.push(j), acc);
            lemma_walk_acc(ms, root, x, k + 1, stack, t.insert(j));
            if target == j {
                let t0 = walk(ms, root, j, 0, stack.push(j), Set::empty())->Done_0;
                assert(t0.subset_of(s));
                stack.push(j)
            } else if t.contains(target) {
                let st = lemma_walk_inner(ms, root, j, 0, stack.push(j), acc, target);
                assert(t.subset_of(s));
                st
            } else {
                lemma_walk_inner(ms, root, x, k + 1, stack, t.insert(j), target)
            }
        },
    }
}

/// What a gathering adds bears another name than the one looked for.
proof fn lemma_walk_names(
    ms: Seq<(Seq<char>, Seq<Seq<char>>)>,
    root: Seq<char>,
    x: int,
    k: int,
    stack: Seq<int>,
    acc: Set<int>,
)
    requires
        walk(ms, root, x, k, stack, acc) is Done,
    ensures
        forall|j: int| #[trigger] walk(ms, root, x, k, stack, acc)->Done_0.contains(j) && !acc.contains(j)
            ==> 0 <= j < ms.len() && ms[j].0 != root,
    decreases (if stack.len() < ms.len() { ms.len() - stack.len() } else { 0 }), ms[x].1.len() - k,
{
    if 0 <= k < ms[x].1.len() {
        let c = ms[x].1[k];
        lemma_last_named(ms, c);
        match last_named(ms, c) {
            None => {
                lemma_walk_names(ms, root, x, k + 1, stack, acc);
            },
            Some(j) => {
                lemma_walk_names(ms, root, j, 0, stack.push(j), acc);
                let t = walk(ms, root, j, 0, stack.push(j), acc)->Done_0;
                lemma_walk_names(ms, root, x, k + 1, stack, t.insert(j));
            },
        }
    }
}

/// Whether every gathering ends well.
pub open spec fn all_done(ms: Seq<(Seq<char>, Seq<Seq<char>>)>) -> bool {
    forall|i: int| 0 <= i < ms.len() ==> #[trigger] made_of(ms, i) is Done
}

proof fn lemma_no_cycle_from(ms: Seq<(Seq<char>, Seq<Seq<char>>)>, k: int, i: int)
    requires
        0 <= k <= i < ms.len(),
        first_cycle(ms, k) is None,
    ensures
        !(made_of(ms, i) is Cycle),
    decreases i - k,
{
    if k < i {
        lemma_no_cycle_from(ms, k + 1, i);
    }
}

/// Without endless gathering nor a mixture made of itself, every gathering
/// ends well.
proof fn lemma_all_done(ms: Seq<(Seq<char>, Seq<Seq<char>>)>)
    requires
        walks_end(ms),
        first_cycle(ms, 0) is None,
    ensures
        all_done(ms),
{
    assert forall|i: int| 0 <= i < ms.len() implies #[trigger] made_of(ms, i) is Done by {
        lemma_done_upto(ms, i);
    }
}

proof fn lemma_done_upto(ms: Seq<(Seq<char>, Seq<Seq<char>>)>, i: int)
    requires
        walks_end(ms),
        first_cycle(ms, 0) is None,
        0 <= i < ms.len(),
    ensures
        forall|k: int| 0 <= k <= i ==> #[trigger] made_of(ms, k) is Done,
    decreases i,
{
    if i > 0 {
        lemma_done_upto(ms, i - 1);
    }
    lemma_no_cycle_from(ms, 0, i);
    assert(forall|k: int| 0 <= k < i ==> #[trigger] made_of(ms, k) is Done);
    assert(!(made_of(ms, i) is Endless));
}

/// Being made of is a strict order among mixtures: none is made of itself,
/// and what one is made of, what it is made of is made of too.
proof fn lemma_depends_order(ms: Seq<(Seq<char>, Seq<Seq<char>>)>, a: int, b: int, c: int)
    requires
        all_done(ms),
        0 <= a < ms.len(),
        0 <= b < ms.len(),
        0 <= c < ms.len(),
    ensures
        !depends(ms, all_made_of(ms), a, a),
        depends(ms, all_made_of(ms), a, b) && depends(ms, all_made_of(ms), b, c)
            ==> depends(ms, all_made_of(ms), a, c),
{
    let dv = all_made_of(ms);
    lemma_last_named(ms, ms[a].0);
    lemma_last_named(ms, ms[b].0);
    lemma_last_named(ms, ms[c].0);
    let la = last_named(ms, ms[a].0)->0;
    let lb = last_named(ms, ms[b].0)->0;
    let lc = last_named(ms, ms[c].0)->0;
    assert(made_of(ms, la) is Done);
    assert(made_of(ms, lb) is Done);
    assert(dv[la] == made_of(ms, la)->Done_0);
    assert(dv[lb] == made_of(ms, lb)->Done_0);
    lemma_walk_names(ms, ms[la].0, la, 0, Seq::empty(), Set::empty());
    if depends(ms, dv, a, b) && depends(ms, dv, b, c) {
        let st = lemma_walk_inner(ms, ms[la].0, la, 0, Seq::empty(), Set::empty(), lb);
        lemma_walk_same(ms, ms[la].0, ms[lb].0, lb, 0, st, Seq::empty());
        assert(dv[lb].contains(lc));
    }
}

/// Whether the mixture at position `p` of `order` is made of one after it.
pub open spec fn movable(ms: Seq<(Seq<char>, Seq<Seq<char>>)>, order: Seq<int>, p: int) -> bool {
    exists|q: int| p < q < order.len() && depends(ms, all_made_of(ms), order[p], #[trigger] order[q])
}

/// The number of positions from `p` on whose mixture is made of one after it.
pub open spec fn count_movable(ms: Seq<(Seq<char>, Seq<Seq<char>>)>, order: Seq<int>, p: int) -> nat
    decreases order.len() - p,
{
    if p < 0 || p >= order.len() {
        0
    } else {
        (if movable(ms, order, p) { 1nat } else { 0nat }) + count_movable(ms, order, p + 1)
    }
}

/// The last position after `i` of a mixture the one at `i` is made of, or
/// else `j`.
proof fn lemma_last_dep(
    ms: Seq<(Seq<char>, Seq<Seq<char>>)>,
    deps: Seq<Set<int>>,
    order: Seq<int>,
    i: int,
    k: int,
    j: int,
)
    ensures
        ({
            let r = last_dep(ms, deps, order, i, k, j);
            &&& (r == j || (k <= r < order.len() && depends(ms, deps, order[i], order[r])))
            &&& forall|q: int| k <= q < order.len() && depends(ms, deps, order[i], #[trigger] order[q]) ==> q <= r
        }),
    decreases order.len() - k,
{
    if k < order.len() {
        let j2 = if depends(ms, deps, order[i], order[k]) { k } else { j };
        lemma_last_dep(ms, deps, order, i, k + 1, j2);
    }
}

/// Where each mixture stands once the one at `i` has moved right after the
/// one at `j`.
proof fn lemma_moved(o: Seq<int>, i: int, j: int)
    requires
        0 <= i < j < o.len(),
    ensures
        ({
            let o2 = o.insert(j + 1, o[i]).remove(i);
            &&& o2.len() == o.len()
            &&& forall|p: int| 0 <= p < i ==> o2[p] == o[p]
            &&& forall|p: int| i <= p < j ==> o2[p] == o[p + 1]
            &&& o2[j] == o[i]
            &&& forall|p: int| j < p < o.len() ==> o2[p] == o[p]
        }),
{
}

/// Whether a position has a mixture made of one after it, once the mixture
/// at `i` has moved right after the last one it is made of, at `j`.
proof fn lemma_movable_moved(ms: Seq<(Seq<char>, Seq<Seq<char>>)>, o: Seq<int>, i: int, j: int, p: int)
    requires
        all_done(ms),
        o.len() == ms.len(),
        forall|k: int| 0 <= k < o.len() ==> 0 <= #[trigger] o[k] < ms.len(),
        0 <= i < j < o.len(),
        depends(ms, all_made_of(ms), o[i], o[j]),
        forall|q: int| j < q < o.len() ==> !depends(ms, all_made_of(ms), o[i], #[trigger] o[q]),
    ensures
        ({
            let o2 = o.insert(j + 1, o[i]).remove(i);
            &&& i <= p < j ==> movable(ms, o2, p) == movable(ms, o, p + 1)
            &&& p == j ==> !movable(ms, o2, p)
            &&& j < p < o.len() ==> movable(ms, o2, p) == movable(ms, o, p)
        }),
{
    let dv = all_made_of(ms);
    let n = o.len();
    let o2 = o.insert(j + 1, o[i]).remove(i);
    lemma_moved(o, i, j);
    let x = o[i];
    if i <= p < j {
        let y = o[p + 1];
        assert(o2[p] == y);
        if movable(ms, o2, p) {
            let q = choose|q: int| p < q < o2.len() && depends(ms, dv, o2[p], #[trigger] o2[q]);
            if q < j {
                assert(depends(ms, dv, o[p + 1], o[q + 1]));
            } else if q == j {
                lemma_depends_order(ms, y, x, o[j]);
                lemma_depends_order(ms, x, y, x);
                if p + 1 == j {
                    assert(false);
                }
                assert(depends(ms, dv, o[p + 1], o[j]));
            } else {
                assert(depends(ms, dv, o[p + 1], o[q]));
            }
        }
        if movable(ms, o, p + 1) {
            let q = choose|q: int| p + 1 < q < o.len() && depends(ms, dv, o[p + 1], #[trigger] o[q]);
            if q <= j {
                assert(o2[q - 1] == o[q]);
                assert(depends(ms, dv, o2[p], o2[q - 1]));
            } else {
                assert(depends(ms, dv, o2[p], o2[q]));
            }
        }
    } else if p == j {
        if movable(ms, o2, p) {
            let q = choose|q: int| p < q < o2.len() && depends(ms, dv, o2[p], #[trigger] o2[q]);
            assert(o2[q] == o[q]);
        }
    } else if j < p < n {
        if movable(ms, o2, p) {
            let q = choose|q: int| p < q < o2.len() && depends(ms, dv, o2[p], #[trigger] o2[q]);
            assert(depends(ms, dv, o[p], o[q]));
        }
        if movable(ms, o, p) {
            let q = choose|q: int| p < q < o.len() && depends(ms, dv, o[p], #[trigger] o[q]);
            assert(depends(ms, dv, o2[p], o2[q]));
        }
    }
}

/// Two orders with the same movable positions from `p` on count them alike.
proof fn lemma_count_same(ms: Seq<(Seq<char>, Seq<Seq<char>>)>, o1: Seq<int>, o2: Seq<int>, p: int)
    requires
        0 <= p,
        o1.len() == o2.len(),
        forall|q: int| p <= q < o1.len() ==> #[trigger] movable(ms, o1, q) == movable(ms, o2, q),
    ensures
        count_movable(ms, o1, p) == count_movable(ms, o2, p),
    decreases o1.len() - p,
{
    if p < o1.len() {
        lemma_count_same(ms, o1, o2, p + 1);
    }
}

/// Counting after a move, from `p` on, counts as before from the next
/// position on.
proof fn lemma_count_moved(
    ms: Seq<(Seq<char>, Seq<Seq<char>>)>,
    o: Seq<int>,
    o2: Seq<int>,
    i: int,
    j: int,
    p: int,
)
    requires
        0 <= i <= p <= j < o.len(),
        o2.len() == o.len(),
        forall|q: int| i <= q < j ==> #[trigger] movable(ms, o2, q) == movable(ms, o, q + 1),
        !movable(ms, o2, j),
        forall|q: int| j < q < o.len() ==> #[trigger] movable(ms, o2, q) == movable(ms, o, q),
    ensures
        count_movable(ms, o2, p) == count_movable(ms, o, p + 1),
    decreases j - p,
{
    if p == j {
        lemma_count_same(ms, o2, o, j + 1);
    } else {
        lemma_count_moved(ms, o, o2, i, j, p + 1);
    }
}

/// Ordering ends within as many steps as there are positions left and
/// mixtures made of one after them.
proof fn lemma_sort_ends(ms: Seq<(Seq<char>, Seq<Seq<char>>)>, o: Seq<int>, i: int, fuel: nat)
    requires
        all_done(ms),
        o.len() == ms.len(),
        forall|k: int| 0 <= k < o.len() ==> 0 <= #[trigger] o[k] < ms.len(),
        0 <= i < o.len() - 1,
        fuel >= count_movable(ms, o, i) + (o.len() - 1 - i),
    ensures
        sort_steps(ms, all_made_of(ms), o, i, fuel) is Some,
    decreases fuel,
{
    let dv = all_made_of(ms);
    let n = o.len();
    let j = last_dep(ms, dv, o, i, i + 1, i);
    lemma_last_dep(ms, dv, o, i, i + 1, i);
    if j > i {
        let o2 = o.insert(j + 1, o[i]).remove(i);
        lemma_moved(o, i, j);
        assert forall|p: int| i <= p < n implies {
            &&& i <= p < j ==> #[trigger] movable(ms, o2, p) == movable(ms, o, p + 1)
            &&& p == j ==> !movable(ms, o2, p)
            &&& j < p < n ==> movable(ms, o2, p) == movable(ms, o, p)
        } by {
            lemma_movable_moved(ms, o, i, j, p);
        }
        lemma_count_moved(ms, o, o2, i, j, i);
        assert(movable(ms, o, i)) by {
            assert(depends(ms, dv, o[i], o[j]));
        }
        assert forall|k: int| 0 <= k < o2.len() implies 0 <= #[trigger] o2[k] < ms.len() by {
            if k < i {
            } else if k < j {
                assert(o2[k] == o[k + 1]);
            } else if k == j {
            } else {
            }
        }
        lemma_sort_ends(ms, o2, i, (fuel - 1) as nat);
    } else {
        if movable(ms, o, i) {
            let q = choose|q: int| i < q < o.len() && depends(ms, dv, o[i], #[trigger] o[q]);
            assert(false);
        }
        if i + 1 < n - 1 {
            lemma_sort_ends(ms, o, i + 1, (fuel - 1) as nat);
        }
    }
}

/// Without a mixture made of itself, ordering ends.
proof fn lemma_ordering_ends(ms: Seq<(Seq<char>, Seq<Seq<char>>)>)
    requires
        all_done(ms),
        ms.len() > 1,
    ensures
        ordering_ends(ms),
{
    let o = identity(ms.len());
    let fuel = count_movable(ms, o, 0) + (ms.len() - 1);
    lemma_sort_ends(ms, o, 0, fuel as nat);
    assert(sort_steps(ms, all_made_of(ms), identity(ms.len()), 0, fuel as nat) is Some);
}

/// Moving the mixture at `i` right after the one at `j` keeps the same
/// mixtures, each as many times.
proof fn lemma_moved_same(o: Seq<int>, i: int, j: int)
    requires
        0 <= i < j < o.len(),
    ensures
        o.insert(j + 1, o[i]).remove(i).to_multiset() == o.to_multiset(),
{
    broadcast use vstd::seq_lib::group_to_multiset_ensures;
    let o2 = o.insert(j + 1, o[i]).remove(i);
    lemma_moved(o, i, j);
    assert(o2.remove(j) =~= o.remove(i));
    let m = o.to_multiset();
    let m2 = o2.to_multiset();
    assert(o.contains(o[i]));
    assert(o2.contains(o2[j]));
    assert(m.count(o[i]) > 0);
    assert(m2.count(o[i]) > 0);
    assert(m2 =~= m2.remove(o[i]).insert(o[i]));
    assert(m =~= m.remove(o[i]).insert(o[i]));
}

/// A position before `i` that has no mixture made of one after it keeps
/// none once the mixture at `i` has moved further on.
proof fn lemma_settled_moved(ms: Seq<(Seq<char>, Seq<Seq<char>>)>, o: Seq<int>, i: int, j: int, p: int)
    requires
        0 <= p < i < j < o.len(),
        !movable(ms, o, p),
    ensures
        !movable(ms, o.insert(j + 1, o[i]).remove(i), p),
{
    let dv = all_made_of(ms);
    let o2 = o.insert(j + 1, o[i]).remove(i);
    lemma_moved(o, i, j);
    if movable(ms, o2, p) {
        let q = choose|q: int| p < q < o2.len() && depends(ms, dv, o2[p], #[trigger] o2[q]);
        if q < i {
            assert(depends(ms, dv, o[p], o[q]));
        } else if q < j {
            assert(depends(ms, dv, o[p], o[q + 1]));
        } else if q == j {
            assert(depends(ms, dv, o[p], o[i]));
        } else {
            assert(depends(ms, dv, o[p], o[q]));
        }
    }
}

/// Ordering, once it ends, gives the same mixtures, none before one it is
/// made of.
proof fn lemma_sort_result(ms: Seq<(Seq<char>, Seq<Seq<char>>)>, o: Seq<int>, i: int, fuel: nat)
    requires
        all_done(ms),
        o.len() == ms.len(),
        forall|k: int| 0 <= k < o.len() ==> 0 <= #[trigger] o[k] < ms.len(),
        0 <= i < o.len() - 1,
        forall|p: int| 0 <= p < i ==> !#[trigger] movable(ms, o, p),
        sort_steps(ms, all_made_of(ms), o, i, fuel) is Some,
    ensures
        ({
            let r = sort_steps(ms, all_made_of(ms), o, i, fuel)->0;
            &&& r.to_multiset() == o.to_multiset()
            &&& r.len() == o.len()
            &&& forall|p: int| 0 <= p < r.len() ==> !#[trigger] movable(ms, r, p)
        }),
    decreases fuel,
{
    let dv = all_made_of(ms);
    let n = o.len();
    let j = last_dep(ms, dv, o, i, i + 1, i);
    lemma_last_dep(ms, dv, o, i, i + 1, i);
    if j > i {
        let o2 = o.insert(j + 1, o[i]).remove(i);
        lemma_moved(o, i, j);
        lemma_moved_same(o, i, j);
        assert forall|p: int| 0 <= p < i implies !#[trigger] movable(ms, o2, p) by {
            lemma_settled_moved(ms, o, i, j, p);
        }
        assert forall|k: int| 0 <= k < o2.len() implies 0 <= #[trigger] o2[k] < ms.len() by {
            if i <= k < j {
                assert(o2[k] == o[k + 1]);
            }
        }
        lemma_sort_result(ms, o2, i, (fuel - 1) as nat);
    } else {
        if movable(ms, o, i) {
            let q = choose|q: int| i < q < o.len() && depends(ms, dv, o[i], #[trigger] o[q]);
            assert(false);
        }
        if i + 1 < n - 1 {
            lemma_sort_result(ms, o, i + 1, (fuel - 1) as nat);
        } else {
            assert forall|p: int| 0 <= p < n implies !#[trigger] movable(ms, o, p) by {
                if p == n - 1 && movable(ms, o, p) {
                    let q = choose|q: int| p < q < o.len() && depends(ms, dv, o[p], #[trigger] o[q]);
                }
            }
        }
    }
}

/// The order of mixtures holds each of them once, and none before one it is
/// made of.
pub proof fn lemma_mixture_order(ms: Seq<(Seq<char>, Seq<Seq<char>>)>)
    requires
        ms.len() > 1 ==> all_done(ms),
    ensures
        mixture_order(ms).to_multiset() == identity(ms.len()).to_multiset(),
        forall|p: int, q: int| 0 <= p < q < ms.len()
            ==> !depends(ms, all_made_of(ms), #[trigger] mixture_order(ms)[p], #[trigger] mixture_order(ms)[q]),
{
    if ms.len() > 1 {
        lemma_ordering_ends(ms);
        let o = identity(ms.len());
        let fuel = choose|fuel: nat| #[trigger] sort_steps(ms, all_made_of(ms), identity(ms.len()), 0, fuel) is Some;
        lemma_sort_result(ms, o, 0, fuel);
        let r = mixture_order(ms);
        assert forall|p: int, q: int| 0 <= p < q < ms.len()
            implies !depends(ms, all_made_of(ms), #[trigger] r[p], #[trigger] r[q]) by {
            assert(!movable(ms, r, p));
        }
    }
}

} // verus!
