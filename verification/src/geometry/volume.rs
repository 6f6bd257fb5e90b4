//! Geometry volumes: a tree of named volumes, each with its material, shape,
//! placement, overlaps, roles and subtracted volumes.
use crate::cxx::{Roles, ShapeType};
use crate::utils::error::{explain_text, variant_error, views};
use crate::simulation::sampler::{no_roles, string_views};
use crate::utils::text::{lemma_split_append, lemma_split_len, lemma_str_lt_total, lemma_str_lt_trans, spec_split, split, str_eq, str_less, str_lt, to_owned};
use vstd::prelude::*;

verus! {

/// A volume of a geometry definition. The shape `S`, position `P` and
/// rotation `R` are carried through unchanged by the logic of this module.
pub struct Volume<S, P, R> {
    pub name: String,
    pub material: String,
    pub shape: S,
    pub position: Option<P>,
    pub rotation: Option<R>,
    pub volumes: Vec<Volume<S, P, R>>,
    pub overlaps: Vec<(String, String)>,
    pub roles: Roles,
    pub subtract: Vec<String>,
}

/// Mathematical view of a `Volume`.
#[verifier::ext_equal]
pub ghost struct VolumeView<S, P, R> {
    pub name: Seq<char>,
    pub material: Seq<char>,
    pub shape: S,
    pub position: Option<P>,
    pub rotation: Option<R>,
    pub volumes: Seq<VolumeView<S, P, R>>,
    pub overlaps: Seq<(Seq<char>, Seq<char>)>,
    pub roles: Roles,
    pub subtract: Seq<Seq<char>>,
}

/// The views of a sequence of name pairs.
pub open spec fn pair_views(s: Seq<(String, String)>) -> Seq<(Seq<char>, Seq<char>)> {
    s.map_values(|x: (String, String)| (x.0@, x.1@))
}

impl<S, P, R> Volume<S, P, R> {
    #[verifier::opaque]
    pub open spec fn view_of(v: Volume<S, P, R>) -> VolumeView<S, P, R>
        decreases v,
    {
        VolumeView {
            name: v.name@,
            material: v.material@,
            shape: v.shape,
            position: v.position,
            rotation: v.rotation,
            volumes: Seq::new(
                v.volumes@.len(),
                |i: int|
                    if 0 <= i < v.volumes@.len() {
                        Self::view_of(v.volumes@[i])
                    } else {
                        arbitrary()
                    },
            ),
            overlaps: pair_views(v.overlaps@),
            roles: v.roles,
            subtract: string_views(v.subtract@),
        }
    }
}

impl<S, P, R> View for Volume<S, P, R> {
    type V = VolumeView<S, P, R>;

    open spec fn view(&self) -> VolumeView<S, P, R> {
        Self::view_of(*self)
    }
}

/// The views of a sequence of volumes.
pub open spec fn volume_views<S, P, R>(vs: Seq<Volume<S, P, R>>) -> Seq<VolumeView<S, P, R>> {
    vs.map_values(|v: Volume<S, P, R>| v@)
}

/// What the view of a volume is made of.
pub broadcast proof fn lemma_view<S, P, R>(v: Volume<S, P, R>)
    ensures
        #[trigger] v@ == (VolumeView {
            name: v.name@,
            material: v.material@,
            shape: v.shape,
            position: v.position,
            rotation: v.rotation,
            volumes: volume_views(v.volumes@),
            overlaps: pair_views(v.overlaps@),
            roles: v.roles,
            subtract: string_views(v.subtract@),
        }),
{
    reveal(Volume::view_of);
    assert(v@.volumes =~= volume_views(v.volumes@));
}

/// Replacing a volume in a sequence replaces its view.
pub broadcast proof fn lemma_views_update<S, P, R>(vs: Seq<Volume<S, P, R>>, k: int, x: Volume<S, P, R>)
    requires
        0 <= k < vs.len(),
    ensures
        #[trigger] volume_views(vs.update(k, x)) == volume_views(vs).update(k, x@),
{
    assert(volume_views(vs.update(k, x)) =~= volume_views(vs).update(k, x@));
}

/// Removing a volume from a sequence removes its view.
pub broadcast proof fn lemma_views_remove<S, P, R>(vs: Seq<Volume<S, P, R>>, k: int)
    requires
        0 <= k < vs.len(),
    ensures
        #[trigger] volume_views(vs.remove(k)) == volume_views(vs).remove(k),
{
    assert(volume_views(vs.remove(k)) =~= volume_views(vs).remove(k));
}

/// Pushing a volume on a sequence pushes its view.
pub broadcast proof fn lemma_views_push<S, P, R>(vs: Seq<Volume<S, P, R>>, x: Volume<S, P, R>)
    ensures
        #[trigger] volume_views(vs.push(x)) == volume_views(vs).push(x@),
{
    assert(volume_views(vs.push(x)) =~= volume_views(vs).push(x@));
}

/// The node at the end of the index path `p`.
pub open spec fn node_at<S, P, R>(v: VolumeView<S, P, R>, p: Seq<int>) -> VolumeView<S, P, R>
    decreases p.len(),
{
    if p.len() == 0 {
        v
    } else {
        node_at(v.volumes[p[0]], p.drop_first())
    }
}

/// Whether each index of `p` stands within the daughters it indexes.
pub open spec fn valid_path<S, P, R>(v: VolumeView<S, P, R>, p: Seq<int>) -> bool
    decreases p.len(),
{
    p.len() == 0 || (0 <= p[0] < v.volumes.len() && valid_path(v.volumes[p[0]], p.drop_first()))
}

/// `v` with the node at the end of `p` replaced by `n`.
pub open spec fn set_at<S, P, R>(v: VolumeView<S, P, R>, p: Seq<int>, n: VolumeView<S, P, R>) -> VolumeView<S, P, R>
    decreases p.len(),
{
    if p.len() == 0 {
        n
    } else {
        VolumeView { volumes: v.volumes.update(p[0], set_at(v.volumes[p[0]], p.drop_first(), n)), ..v }
    }
}

pub open spec fn usize_path(p: Seq<usize>) -> Seq<int> {
    p.map_values(|i: usize| i as int)
}

fn child_mut<'a, S, P, R>(v: &'a mut Volume<S, P, R>, k: usize) -> (c: &'a mut Volume<S, P, R>)
    requires
        k < old(v).volumes@.len(),
    ensures
        *c == old(v).volumes@[k as int],
        final(v).volumes@ == old(v).volumes@.update(k as int, *final(c)),
        final(v).name == old(v).name,
        final(v).material == old(v).material,
        final(v).shape == old(v).shape,
        final(v).position == old(v).position,
        final(v).rotation == old(v).rotation,
        final(v).overlaps == old(v).overlaps,
        final(v).roles == old(v).roles,
        final(v).subtract == old(v).subtract,
        final(v)@ =~= (VolumeView { volumes: old(v)@.volumes.update(k as int, final(c)@), ..old(v)@ }),
{
    broadcast use lemma_view, lemma_views_update;
    &mut v.volumes[k]
}

pub(crate) fn node_mut<'a, S, P, R>(v: &'a mut Volume<S, P, R>, p: &Vec<usize>, d: usize) -> (r: &'a mut Volume<S, P, R>)
    requires
        d <= p@.len(),
        valid_path(old(v)@, usize_path(p@).skip(d as int)),
    ensures
        r@ == node_at(old(v)@, usize_path(p@).skip(d as int)),
        final(v)@ == set_at(old(v)@, usize_path(p@).skip(d as int), final(r)@),
    decreases p@.len() - d,
{
    broadcast use lemma_view, lemma_views_update;
    if d == p.len() {
        v
    } else {
        let k = p[d];
        proof {
            lemma_view(*v);
            let q = usize_path(p@).skip(d as int);
            assert(q[0] == k);
            assert(q.drop_first() =~= usize_path(p@).skip(d + 1));
        }
        let child = child_mut(v, k);
        let r = node_mut(child, p, d + 1);
        r
    }
}

/// The position of the first volume named `name` in `vs`, if any.
#[verifier::opaque]
pub open spec fn first_named<S, P, R>(vs: Seq<VolumeView<S, P, R>>, name: Seq<char>) -> Option<int> {
    if exists|i: int| 0 <= i < vs.len() && vs[i].name == name {
        Some(choose|i: int| 0 <= i < vs.len() && vs[i].name == name
            && forall|k: int| 0 <= k < i ==> vs[k].name != name)
    } else {
        None
    }
}

proof fn lemma_first_named_exists<S, P, R>(vs: Seq<VolumeView<S, P, R>>, name: Seq<char>, j: int)
    requires
        0 <= j < vs.len(),
        vs[j].name == name,
    ensures
        exists|i: int| 0 <= i < vs.len() && vs[i].name == name
            && forall|k: int| 0 <= k < i ==> vs[k].name != name,
    decreases j,
{
    if exists|i: int| 0 <= i < j && vs[i].name == name {
        let i = choose|i: int| 0 <= i < j && vs[i].name == name;
        lemma_first_named_exists(vs, name, i);
    } else {
        assert(forall|k: int| 0 <= k < j ==> vs[k].name != name);
    }
}

/// What the first volume named `name` in `vs` is.
pub proof fn lemma_first_named<S, P, R>(vs: Seq<VolumeView<S, P, R>>, name: Seq<char>)
    ensures
        match first_named(vs, name) {
            Some(i) => 0 <= i < vs.len() && vs[i].name == name
                && forall|k: int| 0 <= k < i ==> vs[k].name != name,
            None => forall|k: int| 0 <= k < vs.len() ==> vs[k].name != name,
        },
{
    reveal(first_named);
    if exists|i: int| 0 <= i < vs.len() && vs[i].name == name {
        let j = choose|i: int| 0 <= i < vs.len() && vs[i].name == name;
        lemma_first_named_exists(vs, name, j);
    }
}

/// The index path reached from `v` by following, one after the other, the
/// first daughters bearing the given `names`.
pub open spec fn descend<S, P, R>(v: VolumeView<S, P, R>, names: Seq<Seq<char>>) -> Option<Seq<int>>
    decreases names.len(),
{
    if names.len() == 0 {
        Some(Seq::empty())
    } else {
        match first_named(v.volumes, names[0]) {
            None => None,
            Some(k) => match descend(v.volumes[k], names.drop_first()) {
                None => None,
                Some(q) => Some(seq![k] + q),
            },
        }
    }
}

/// The index path of the volume whose dotted path name is split into
/// `names`, starting from the root volume `root`.
pub open spec fn locate<S, P, R>(root: VolumeView<S, P, R>, names: Seq<Seq<char>>) -> Option<Seq<int>> {
    if names.len() > 0 && names[0] == root.name {
        descend(root, names.drop_first())
    } else {
        None
    }
}

/// The index path of the volume at the dotted `path`, from `root`.
pub open spec fn path_index<S, P, R>(root: VolumeView<S, P, R>, path: Seq<char>) -> Option<Seq<int>> {
    locate(root, spec_split(path, '.'))
}

/// A path found by `descend` leads somewhere, to a volume bearing the last
/// name.
pub proof fn lemma_descend_valid<S, P, R>(v: VolumeView<S, P, R>, names: Seq<Seq<char>>)
    ensures
        descend(v, names) matches Some(q) ==> valid_path(v, q) && q.len() == names.len()
            && (names.len() > 0 ==> node_at(v, q).name == names.last()),
    decreases names.len(),
{
    if names.len() > 0 {
        lemma_first_named(v.volumes, names[0]);
        if let Some(k) = first_named(v.volumes, names[0]) {
            lemma_descend_valid(v.volumes[k], names.drop_first());
            if let Some(q) = descend(v.volumes[k], names.drop_first()) {
                let p = seq![k] + q;
                assert(p[0] == k);
                assert(p.drop_first() =~= q);
                if names.len() == 1 {
                    assert(q.len() == 0);
                } else {
                    assert(names.drop_first().last() == names.last());
                }
            }
        }
    }
}

/// An optional position, as an integer.
pub open spec fn opt_index(r: Option<usize>) -> Option<int> {
    match r {
        Some(i) => Some(i as int),
        None => None,
    }
}

/// An optional index path, as integers.
pub open spec fn opt_path(r: Option<Vec<usize>>) -> Option<Seq<int>> {
    match r {
        Some(p) => Some(usize_path(p@)),
        None => None,
    }
}

/// A path found by `path_index` leads somewhere.
pub proof fn lemma_path_index_valid<S, P, R>(root: VolumeView<S, P, R>, path: Seq<char>)
    ensures
        path_index(root, path) matches Some(p) ==> valid_path(root, p),
{
    let names = spec_split(path, '.');
    if names.len() > 0 && names[0] == root.name {
        lemma_descend_valid(root, names.drop_first());
    }
}

/// Putting back the node found at `p` changes nothing.
pub proof fn lemma_set_at_same<S, P, R>(v: VolumeView<S, P, R>, p: Seq<int>)
    requires
        valid_path(v, p),
    ensures
        set_at(v, p, node_at(v, p)) == v,
    decreases p.len(),
{
    if p.len() > 0 {
        lemma_set_at_same(v.volumes[p[0]], p.drop_first());
        assert(v.volumes.update(p[0], v.volumes[p[0]]) =~= v.volumes);
    }
}

/// Volumes bearing the same names, one for one, have their first volume
/// named `name` at the same position.
pub proof fn lemma_first_named_same<S, P, R>(vs: Seq<VolumeView<S, P, R>>, ws: Seq<VolumeView<S, P, R>>, name: Seq<char>)
    requires
        vs.len() == ws.len(),
        forall|i: int| 0 <= i < vs.len() ==> (#[trigger] vs[i]).name == ws[i].name,
    ensures
        first_named(vs, name) == first_named(ws, name),
{
    lemma_first_named(vs, name);
    lemma_first_named(ws, name);
    match (first_named(vs, name), first_named(ws, name)) {
        (Some(i), Some(j)) => {
            if i < j {
                assert(ws[i].name == name);
            } else if j < i {
                assert(vs[j].name == name);
            }
        },
        (Some(i), None) => {
            assert(ws[i].name == name);
        },
        (None, Some(j)) => {
            assert(vs[j].name == name);
        },
        (None, None) => {},
    }
}

/// The node put at `p` is found there, along a path still valid.
pub proof fn lemma_node_set<S, P, R>(v: VolumeView<S, P, R>, p: Seq<int>, n: VolumeView<S, P, R>)
    requires
        valid_path(v, p),
    ensures
        valid_path(set_at(v, p, n), p),
        node_at(set_at(v, p, n), p) == n,
        p.len() > 0 ==> set_at(v, p, n).name == v.name,
    decreases p.len(),
{
    if p.len() > 0 {
        lemma_node_set(v.volumes[p[0]], p.drop_first(), n);
    }
}

/// Putting at `p` a node bearing the name of the one there keeps the path
/// found by `descend`.
pub proof fn lemma_descend_set<S, P, R>(v: VolumeView<S, P, R>, names: Seq<Seq<char>>, p: Seq<int>, n: VolumeView<S, P, R>)
    requires
        descend(v, names) == Some(p),
        n.name == node_at(v, p).name,
    ensures
        descend(set_at(v, p, n), names) == Some(p),
    decreases names.len(),
{
    lemma_descend_valid(v, names);
    if names.len() > 0 {
        let k = first_named(v.volumes, names[0])->0;
        let q = descend(v.volumes[k], names.drop_first())->0;
        assert(p == seq![k] + q);
        assert(p[0] == k);
        assert(p.drop_first() =~= q);
        lemma_first_named(v.volumes, names[0]);
        let child = set_at(v.volumes[k], q, n);
        lemma_descend_set(v.volumes[k], names.drop_first(), q, n);
        lemma_descend_valid(v.volumes[k], names.drop_first());
        if q.len() > 0 {
            lemma_node_set(v.volumes[k], q, n);
        }
        let ws = v.volumes.update(k, child);
        assert forall|i: int| 0 <= i < v.volumes.len() implies (#[trigger] v.volumes[i]).name == ws[i].name by {
        }
        lemma_first_named_same(v.volumes, ws, names[0]);
    }
}

/// Descending one name further.
pub proof fn lemma_descend_push<S, P, R>(v: VolumeView<S, P, R>, names: Seq<Seq<char>>, x: Seq<char>)
    ensures
        descend(v, names.push(x)) == match descend(v, names) {
            None => None,
            Some(p) => match first_named(node_at(v, p).volumes, x) {
                None => None,
                Some(j) => Some(p.push(j)),
            },
        },
    decreases names.len(),
{
    lemma_descend_valid(v, names);
    let ns = names.push(x);
    if names.len() == 0 {
        assert(ns.drop_first() =~= Seq::<Seq<char>>::empty());
        assert(ns[0] == x);
        assert(descend(v, names) == Some(Seq::<int>::empty()));
        assert(node_at(v, Seq::<int>::empty()) == v);
        if let Some(j) = first_named(v.volumes, x) {
            assert(descend(v.volumes[j], ns.drop_first()) == Some(Seq::<int>::empty()));
            assert(seq![j] + Seq::<int>::empty() =~= Seq::<int>::empty().push(j));
        }
    } else {
        assert(ns[0] == names[0]);
        assert(ns.drop_first() =~= names.drop_first().push(x));
        if let Some(k) = first_named(v.volumes, names[0]) {
            lemma_descend_push(v.volumes[k], names.drop_first(), x);
            if let Some(q) = descend(v.volumes[k], names.drop_first()) {
                let p = seq![k] + q;
                assert(descend(v, names) == Some(p));
                assert(p[0] == k);
                assert(p.drop_first() =~= q);
                assert(node_at(v, p) == node_at(v.volumes[k], q));
                if let Some(j) = first_named(node_at(v.volumes[k], q).volumes, x) {
                    assert(seq![k] + q.push(j) =~= p.push(j));
                }
            }
        }
    }
}

/// The path `mother.name`, where `name` holds no dot, leads to the first
/// daughter named `name` of the volume at `mother`.
pub proof fn lemma_path_index_child<S, P, R>(root: VolumeView<S, P, R>, mother: Seq<char>, name: Seq<char>)
    requires
        !name.contains('.'),
    ensures
        path_index(root, mother + seq!['.'] + name) == match path_index(root, mother) {
            None => None,
            Some(p) => match first_named(node_at(root, p).volumes, name) {
                None => None,
                Some(j) => Some(p.push(j)),
            },
        },
{
    let ns = spec_split(mother, '.');
    lemma_split_append(mother, '.', name);
    lemma_split_len(mother, '.');
    assert(ns.push(name)[0] == ns[0]);
    assert(ns.push(name).drop_first() =~= ns.drop_first().push(name));
    lemma_descend_push(root, ns.drop_first(), name);
}

/// Putting at `p` a node bearing the name of the one there keeps the path
/// found by `path_index`.
pub proof fn lemma_path_index_set<S, P, R>(root: VolumeView<S, P, R>, path: Seq<char>, p: Seq<int>, n: VolumeView<S, P, R>)
    requires
        path_index(root, path) == Some(p),
        n.name == node_at(root, p).name,
    ensures
        path_index(set_at(root, p, n), path) == Some(p),
{
    let ns = spec_split(path, '.');
    lemma_descend_valid(root, ns.drop_first());
    if p.len() > 0 {
        lemma_node_set(root, p, n);
    }
    lemma_descend_set(root, ns.drop_first(), p, n);
}

/// The path of a root volume without dots is the empty index path.
pub proof fn lemma_path_index_root<S, P, R>(root: VolumeView<S, P, R>)
    requires
        !root.name.contains('.'),
    ensures
        path_index(root, root.name) == Some(Seq::<int>::empty()),
{
    lemma_split_len(root.name, '.');
    assert(spec_split(root.name, '.').drop_first() =~= Seq::<Seq<char>>::empty());
}

/// Putting at `p` a node with the name and the daughters of the one there
/// changes no path.
pub proof fn lemma_descend_same_shape<S, P, R>(v: VolumeView<S, P, R>, p: Seq<int>, n: VolumeView<S, P, R>, names: Seq<Seq<char>>)
    requires
        valid_path(v, p),
        n.name == node_at(v, p).name,
        n.volumes == node_at(v, p).volumes,
    ensures
        descend(set_at(v, p, n), names) == descend(v, names),
    decreases p.len(), names.len(),
{
    if p.len() == 0 {
        if names.len() > 0 {
            if let Some(k) = first_named(v.volumes, names[0]) {
                assert(n.volumes[k] == v.volumes[k]);
            }
        }
    } else if names.len() > 0 {
        let k = p[0];
        let q = p.drop_first();
        let child = set_at(v.volumes[k], q, n);
        let ws = v.volumes.update(k, child);
        if q.len() > 0 {
            lemma_node_set(v.volumes[k], q, n);
        }
        assert(node_at(v, p) == node_at(v.volumes[k], q));
        assert forall|i: int| 0 <= i < v.volumes.len() implies (#[trigger] v.volumes[i]).name == ws[i].name by {
            if i == k {
                assert(ws[i] == child);
            }
        }
        lemma_first_named_same(v.volumes, ws, names[0]);
        lemma_first_named(v.volumes, names[0]);
        if let Some(i) = first_named(v.volumes, names[0]) {
            if i == k {
                lemma_descend_same_shape(v.volumes[k], q, n, names.drop_first());
            } else {
                assert(ws[i] == v.volumes[i]);
            }
        }
    }
}

/// One step further down a path.
pub proof fn lemma_node_push<S, P, R>(v: VolumeView<S, P, R>, p: Seq<int>, j: int)
    requires
        valid_path(v, p),
        0 <= j < node_at(v, p).volumes.len(),
    ensures
        valid_path(v, p.push(j)),
        node_at(v, p.push(j)) == node_at(v, p).volumes[j],
    decreases p.len(),
{
    let pj = p.push(j);
    if p.len() == 0 {
        assert(pj[0] == j);
        assert(pj.drop_first() =~= Seq::<int>::empty());
        assert(valid_path(v.volumes[j], pj.drop_first()));
        assert(node_at(v.volumes[j], pj.drop_first()) == v.volumes[j]);
    } else {
        assert(node_at(v, p) == node_at(v.volumes[p[0]], p.drop_first()));
        lemma_node_push(v.volumes[p[0]], p.drop_first(), j);
        assert(pj.drop_first() =~= p.drop_first().push(j));
        assert(pj[0] == p[0]);
    }
}

/// Putting `x` at one step below `p` puts, at `p`, the node there with its
/// daughter replaced.
pub proof fn lemma_set_at_push<S, P, R>(v: VolumeView<S, P, R>, p: Seq<int>, j: int, x: VolumeView<S, P, R>)
    requires
        valid_path(v, p),
        0 <= j < node_at(v, p).volumes.len(),
    ensures
        set_at(v, p.push(j), x) == set_at(v, p, (VolumeView { volumes: node_at(v, p).volumes.update(j, x), ..node_at(v, p) })),
    decreases p.len(),
{
    let pj = p.push(j);
    if p.len() == 0 {
        assert(pj[0] == j);
        assert(pj.drop_first() =~= Seq::<int>::empty());
        assert(set_at(v.volumes[j], pj.drop_first(), x) == x);
        assert(node_at(v, p) == v);
        assert(set_at(v, pj, x).volumes =~= v.volumes.update(j, x));
    } else {
        assert(pj[0] == p[0]);
        assert(pj.drop_first() =~= p.drop_first().push(j));
        let c = v.volumes[p[0]];
        assert(node_at(v, p) == node_at(c, p.drop_first()));
        lemma_set_at_push(c, p.drop_first(), j, x);
        assert(set_at(v, pj, x).volumes =~= set_at(v, p, VolumeView { volumes: node_at(v, p).volumes.update(j, x), ..node_at(v, p) }).volumes);
    }
}

/// The position of the first volume named `name` in `volumes`, if any.
pub fn child_position<S, P, R>(volumes: &Vec<Volume<S, P, R>>, name: &str) -> (r: Option<usize>)
    ensures
        r matches Some(i) ==> i < volumes@.len(),
        opt_index(r) == first_named(volume_views(volumes@), name@),
{
    let ghost vs = volume_views(volumes@);
    let n = volumes.len();
    let mut i: usize = 0;
    while i < n
        invariant
            n == volumes@.len(),
            vs == volume_views(volumes@),
            0 <= i <= n,
            forall|k: int| 0 <= k < i ==> vs[k].name != name@,
        decreases n - i,
    {
        let same = str_eq(volumes[i].name.as_str(), name);
        proof {
            lemma_view(volumes@[i as int]);
            assert(vs[i as int] == volumes@[i as int]@);
        }
        if same {
            proof {
                lemma_first_named(vs, name@);
                let f = first_named(vs, name@)->0;
                assert(vs[i as int].name == name@);
                if f < i {
                } else if (i as int) < f {
                }
            }
            return Some(i);
        }
        i = i + 1;
    }
    proof {
        lemma_first_named(vs, name@);
    }
    None
}

#[verifier::rlimit(30)]
fn descend_from<S, P, R>(v: &Volume<S, P, R>, names: &Vec<&str>, d: usize) -> (r: Option<Vec<usize>>)
    requires
        d <= names@.len(),
    ensures
        opt_path(r) == descend(v@, views(names@).skip(d as int)),
    decreases names@.len() - d,
{
    let ghost ns = views(names@).skip(d as int);
    if d == names.len() {
        assert(ns.len() == 0);
        let p: Vec<usize> = Vec::new();
        assert(usize_path(p@) =~= Seq::<int>::empty());
        return Some(p);
    }
    proof {
        lemma_view(*v);
        assert(ns[0] == names@[d as int]@);
        assert(ns.drop_first() =~= views(names@).skip(d + 1));
    }
    let found = child_position(&v.volumes, names[d]);
    assert(opt_index(found) == first_named(v@.volumes, ns[0]));
    match found {
        None => None,
        Some(k) => {
            let r = descend_from(&v.volumes[k], names, d + 1);
            assert(v@.volumes[k as int] == v.volumes@[k as int]@);
            assert(descend(v@, ns) == match descend(v@.volumes[k as int], ns.drop_first()) {
                None => None,
                Some(q) => Some(seq![k as int] + q),
            });
            match r {
                None => None,
                Some(mut q) => {
                    let ghost tail = q@;
                    q.insert(0, k);
                    assert(usize_path(q@) =~= seq![k as int] + usize_path(tail));
                    Some(q)
                },
            }
        },
    }
}

/// The index path of the volume at the dotted `path`, if there is one.
pub fn find_path<S, P, R>(root: &Volume<S, P, R>, path: &str) -> (r: Option<Vec<usize>>)
    ensures
        opt_path(r) == path_index(root@, path@),
{
    broadcast use lemma_view;
    let names = split(path, '.');
    let ghost ns = views(names@);
    assert(ns == spec_split(path@, '.'));
    if names.len() == 0 {
        return None;
    }
    if !str_eq(names[0], root.name.as_str()) {
        return None;
    }
    assert(ns.drop_first() =~= ns.skip(1));
    descend_from(root, &names, 1)
}

/// Whether `c` is alphabetic or numeric, in the sense of Unicode.
pub uninterp spec fn alphanumeric(c: char) -> bool;

/// Whether `c` has the Unicode `Uppercase` property.
pub uninterp spec fn uppercase(c: char) -> bool;

/// `char::is_alphanumeric`: whether `c` is alphabetic or numeric. Beyond the
/// name, it is claimed that among ASCII characters exactly the letters and
/// digits are alphanumeric.
#[verifier::external_body]
fn is_alphanumeric(c: char) -> (r: bool)
    ensures
        r == alphanumeric(c),
        ('a' <= c <= 'z' || 'A' <= c <= 'Z' || '0' <= c <= '9') ==> r,
        ((c as int) < 128 && !('a' <= c <= 'z' || 'A' <= c <= 'Z' || '0' <= c <= '9')) ==> !r,
{
    c.is_alphanumeric()
}

/// `char::is_uppercase`: whether `c` is an uppercase letter. Beyond the name,
/// it is claimed that among ASCII characters exactly the capitals are
/// uppercase.
#[verifier::external_body]
fn is_uppercase(c: char) -> (r: bool)
    ensures
        r == uppercase(c),
        'A' <= c <= 'Z' ==> r,
        ((c as int) < 128 && !('A' <= c <= 'Z')) ==> !r,
{
    c.is_uppercase()
}

/// Why a volume name is refused.
#[derive(Clone, Copy, PartialEq, Eq, Structural, Debug)]
pub enum NameError {
    NotAlphanumeric,
    Empty,
    NotCapitalized,
}

/// The text explaining a `NameError`.
pub open spec fn name_error_text(e: NameError) -> Seq<char> {
    match e {
        NameError::NotAlphanumeric => "expected an alphanumeric string"@,
        NameError::Empty => "empty string"@,
        NameError::NotCapitalized => "should be capitalized"@,
    }
}

impl NameError {
    /// The text explaining this error.
    pub fn why(&self) -> (r: &'static str)
        ensures
            r@ == name_error_text(*self),
    {
        match self {
            NameError::NotAlphanumeric => "expected an alphanumeric string",
            NameError::Empty => "empty string",
            NameError::NotCapitalized => "should be capitalized",
        }
    }
}

/// Why `name` is refused as a volume name, if it is: a volume name is a
/// non-empty alphanumeric string starting with a capital.
pub open spec fn name_error(name: Seq<char>) -> Option<NameError> {
    if exists|i: int| 0 <= i < name.len() && !alphanumeric(#[trigger] name[i]) {
        Some(NameError::NotAlphanumeric)
    } else if name.len() == 0 {
        Some(NameError::Empty)
    } else if !uppercase(name[0]) {
        Some(NameError::NotCapitalized)
    } else {
        None
    }
}

/// Whether `c` is an ASCII letter or digit.
pub open spec fn ascii_alphanumeric(c: char) -> bool {
    'a' <= c <= 'z' || 'A' <= c <= 'Z' || '0' <= c <= '9'
}

/// Whether every character of `s` is ASCII.
pub open spec fn is_ascii(s: Seq<char>) -> bool {
    forall|i: int| 0 <= i < s.len() ==> (#[trigger] s[i] as int) < 128
}

/// Why the ASCII string `name` is refused as a volume name, if it is: as
/// `name_error`, over the ASCII letters, digits and capitals.
pub open spec fn ascii_name_error(name: Seq<char>) -> Option<NameError> {
    if exists|i: int| 0 <= i < name.len() && !ascii_alphanumeric(#[trigger] name[i]) {
        Some(NameError::NotAlphanumeric)
    } else if name.len() == 0 {
        Some(NameError::Empty)
    } else if !('A' <= name[0] <= 'Z') {
        Some(NameError::NotCapitalized)
    } else {
        None
    }
}

/// Checks that `name` is a valid volume name.
pub fn check(name: &str) -> (r: Result<(), NameError>)
    ensures
        r == match name_error(name@) {
            Some(e) => Err::<(), NameError>(e),
            None => Ok(()),
        },
        is_ascii(name@) ==> name_error(name@) == ascii_name_error(name@),
{
    let n = name.unicode_len();
    let mut i: usize = 0;
    while i < n
        invariant
            n == name@.len(),
            0 <= i <= n,
            forall|k: int| 0 <= k < i ==> alphanumeric(#[trigger] name@[k]),
            is_ascii(name@) ==> forall|k: int| 0 <= k < i ==> ascii_alphanumeric(#[trigger] name@[k]),
        decreases n - i,
    {
        let c = name.get_char(i);
        if !is_alphanumeric(c) {
            proof {
                if is_ascii(name@) {
                    assert((name@[i as int] as int) < 128);
                    assert(!ascii_alphanumeric(name@[i as int]));
                }
            }
            return Err(NameError::NotAlphanumeric);
        }
        proof {
            if is_ascii(name@) {
                assert((name@[i as int] as int) < 128);
            }
        }
        i = i + 1;
    }
    if n == 0 {
        return Err(NameError::Empty);
    }
    let c = name.get_char(0);
    proof {
        if is_ascii(name@) {
            assert((name@[0] as int) < 128);
        }
    }
    if !is_uppercase(c) {
        return Err(NameError::NotCapitalized);
    }
    Ok(())
}

/// Why an overlap between two daughter volumes is refused.
pub enum OverlapError {
    /// No daughter bears this name.
    Undefined(String),
    /// This daughter is placed or turned, which overlaps do not handle.
    Displaced(String),
}

/// Mathematical view of an `OverlapError`.
pub ghost enum OverlapFault {
    Undefined(Seq<char>),
    Displaced(Seq<char>),
}

impl View for OverlapError {
    type V = OverlapFault;

    open spec fn view(&self) -> OverlapFault {
        match self {
            OverlapError::Undefined(s) => OverlapFault::Undefined(s@),
            OverlapError::Displaced(s) => OverlapFault::Displaced(s@),
        }
    }
}

/// The text explaining an overlap fault.
pub open spec fn overlap_fault_text(f: OverlapFault) -> Seq<char> {
    match f {
        OverlapFault::Undefined(s) => "undefined '"@ + s + "' volume"@,
        OverlapFault::Displaced(s) => "displaced '"@ + s + "' volume"@,
    }
}

impl OverlapError {
    /// The text explaining this error.
    pub fn why(&self) -> (r: String)
        ensures
            r@ == overlap_fault_text(self@),
    {
        let (head, name) = match self {
            OverlapError::Undefined(s) => ("undefined '", s),
            OverlapError::Displaced(s) => ("displaced '", s),
        };
        let mut text = to_owned(head);
        text.append(name.as_str());
        text.append("' volume");
        text
    }
}

/// Why `name` cannot stand in an overlap among the daughters `vs`, if so.
#[verifier::opaque]
pub open spec fn overlap_fault<S, P, R>(vs: Seq<VolumeView<S, P, R>>, name: Seq<char>) -> Option<OverlapFault> {
    match first_named(vs, name) {
        None => Some(OverlapFault::Undefined(name)),
        Some(i) => if vs[i].position is Some || vs[i].rotation is Some {
            Some(OverlapFault::Displaced(name))
        } else {
            None
        },
    }
}

/// Why the overlap `p` is refused, if so: its left volume is checked first.
pub open spec fn pair_fault<S, P, R>(vs: Seq<VolumeView<S, P, R>>, p: (Seq<char>, Seq<char>)) -> Option<OverlapFault> {
    match overlap_fault(vs, p.0) {
        Some(f) => Some(f),
        None => overlap_fault(vs, p.1),
    }
}

/// The first fault among the overlaps `ps`, in order.
#[verifier::opaque]
pub open spec fn first_fault<S, P, R>(vs: Seq<VolumeView<S, P, R>>, ps: Seq<(Seq<char>, Seq<char>)>) -> Option<OverlapFault>
    decreases ps.len(),
{
    if ps.len() == 0 {
        None
    } else {
        match pair_fault(vs, ps[0]) {
            Some(f) => Some(f),
            None => first_fault(vs, ps.drop_first()),
        }
    }
}

/// The first fault among `ps` is that of its first overlap, or else the
/// first among the others; there is none among no overlaps.
pub proof fn lemma_first_fault<S, P, R>(vs: Seq<VolumeView<S, P, R>>, ps: Seq<(Seq<char>, Seq<char>)>)
    ensures
        ps.len() == 0 ==> first_fault(vs, ps) is None,
        ps.len() > 0 ==> first_fault(vs, ps) == match pair_fault(vs, ps[0]) {
            Some(f) => Some(f),
            None => first_fault(vs, ps.drop_first()),
        },
{
    reveal(first_fault);
}

/// The overlaps of a left volume with each of its right volumes.
pub open spec fn pairs_of(entry: (Seq<char>, Seq<Seq<char>>)) -> Seq<(Seq<char>, Seq<char>)> {
    entry.1.map_values(|r: Seq<char>| (entry.0, r))
}

/// The overlaps declared by `entries`, each a left volume with its right
/// volumes, one after the other.
pub open spec fn flat_overlaps(entries: Seq<(Seq<char>, Seq<Seq<char>>)>) -> Seq<(Seq<char>, Seq<char>)>
    decreases entries.len(),
{
    if entries.len() == 0 {
        Seq::empty()
    } else {
        flat_overlaps(entries.drop_last()) + pairs_of(entries.last())
    }
}

/// An overlap with its names in order.
pub open spec fn ordered(p: (Seq<char>, Seq<char>)) -> (Seq<char>, Seq<char>) {
    if str_lt(p.1, p.0) {
        (p.1, p.0)
    } else {
        p
    }
}

/// The order of overlaps: by left name, then by right name.
pub open spec fn pair_lt(p: (Seq<char>, Seq<char>), q: (Seq<char>, Seq<char>)) -> bool {
    str_lt(p.0, q.0) || (p.0 == q.0 && str_lt(p.1, q.1))
}

/// Whether `ps` is strictly increasing.
pub open spec fn increasing(ps: Seq<(Seq<char>, Seq<char>)>) -> bool {
    forall|i: int, j: int| 0 <= i < j < ps.len() ==> pair_lt(#[trigger] ps[i], #[trigger] ps[j])
}

/// Whether `out` holds, in order and once each, the ordered overlaps of `ps`.
pub open spec fn sorted_overlaps(out: Seq<(Seq<char>, Seq<char>)>, ps: Seq<(Seq<char>, Seq<char>)>) -> bool {
    &&& increasing(out)
    &&& same_elements(out, ordered_all(ps))
}

/// Whether `a` and `b` hold the same elements.
#[verifier::opaque]
pub open spec fn same_elements<T>(a: Seq<T>, b: Seq<T>) -> bool {
    forall|x: T| a.contains(x) <==> b.contains(x)
}

/// Each overlap of `ps` with its names in order.
pub open spec fn ordered_all(ps: Seq<(Seq<char>, Seq<char>)>) -> Seq<(Seq<char>, Seq<char>)> {
    ps.map_values(|p: (Seq<char>, Seq<char>)| ordered(p))
}

/// The views of overlap entries.
pub open spec fn entry_views(entries: Seq<(String, Vec<String>)>) -> Seq<(Seq<char>, Seq<Seq<char>>)> {
    entries.map_values(|e: (String, Vec<String>)| (e.0@, string_views(e.1@)))
}

proof fn lemma_pair_lt_total(p: (Seq<char>, Seq<char>), q: (Seq<char>, Seq<char>))
    ensures
        !pair_lt(p, p),
        pair_lt(p, q) ==> !pair_lt(q, p),
        p != q ==> pair_lt(p, q) || pair_lt(q, p),
{
    lemma_str_lt_total(p.0, q.0);
    lemma_str_lt_total(p.1, q.1);
}

proof fn lemma_pair_lt_trans(p: (Seq<char>, Seq<char>), q: (Seq<char>, Seq<char>), r: (Seq<char>, Seq<char>))
    requires
        pair_lt(p, q),
        pair_lt(q, r),
    ensures
        pair_lt(p, r),
{
    if str_lt(p.0, q.0) && str_lt(q.0, r.0) {
        lemma_str_lt_trans(p.0, q.0, r.0);
    }
    if p.0 == q.0 && q.0 == r.0 && str_lt(p.1, q.1) && str_lt(q.1, r.1) {
        lemma_str_lt_trans(p.1, q.1, r.1);
    }
}

/// The views of pairs of `&str`.
pub open spec fn ref_pair_views(s: Seq<(&str, &str)>) -> Seq<(Seq<char>, Seq<char>)> {
    s.map_values(|x: (&str, &str)| (x.0@, x.1@))
}

/// Whether the pair `x` comes strictly before `(a, b)`.
fn pair_less(x: &(String, String), a: &str, b: &str) -> (r: bool)
    ensures
        r == pair_lt((x.0@, x.1@), (a@, b@)),
{
    str_less(x.0.as_str(), a) || (str_eq(x.0.as_str(), a) && str_less(x.1.as_str(), b))
}

/// Inserts `(a, b)` in the strictly increasing `out`, unless it is there.
fn insert_sorted(out: &mut Vec<(String, String)>, a: &str, b: &str)
    requires
        increasing(pair_views(old(out)@)),
    ensures
        increasing(pair_views(final(out)@)),
        forall|x: (Seq<char>, Seq<char>)| pair_views(final(out)@).contains(x)
            <==> (pair_views(old(out)@).contains(x) || x == (a@, b@)),
{
    let ghost olds = pair_views(out@);
    let ghost p = (a@, b@);
    let n = out.len();
    let mut i: usize = 0;
    while i < n
        invariant
            n == out@.len(),
            olds == pair_views(out@),
            p == (a@, b@),
            0 <= i <= n,
            forall|k: int| 0 <= k < i ==> pair_lt(#[trigger] olds[k], p),
        ensures
            0 <= i <= n,
            forall|k: int| 0 <= k < i ==> pair_lt(#[trigger] olds[k], p),
            i < n ==> !pair_lt(olds[i as int], p),
        decreases n - i,
    {
        let less = pair_less(&out[i], a, b);
        assert(olds[i as int] == (out@[i as int].0@, out@[i as int].1@));
        if !less {
            break;
        }
        i = i + 1;
    }
    proof {
        lemma_pair_lt_total(p, p);
    }
    if i < n && str_eq(out[i].0.as_str(), a) && str_eq(out[i].1.as_str(), b) {
        assert(olds[i as int] == p);
        assert(olds.contains(p));
        return;
    }
    proof {
        if i < n {
            assert(olds[i as int] == (out@[i as int].0@, out@[i as int].1@));
            assert(!pair_lt(olds[i as int], p));
            lemma_pair_lt_total(olds[i as int], p);
            assert(pair_lt(p, olds[i as int]));
        }
    }
    out.insert(i, (to_owned(a), to_owned(b)));
    let ghost news = pair_views(out@);
    assert(news =~= olds.insert(i as int, p));
    assert forall|k: int, l: int| 0 <= k < l < news.len() implies pair_lt(#[trigger] news[k], #[trigger] news[l]) by {
        if l < i {
        } else if k < i && l == i {
        } else if k < i && l > i {
            assert(news[l] == olds[l - 1]);
            if i < n {
                assert(pair_lt(p, olds[i as int]));
                if l - 1 > i {
                    assert(pair_lt(olds[i as int], olds[l - 1]));
                    lemma_pair_lt_trans(p, olds[i as int], olds[l - 1]);
                }
                lemma_pair_lt_trans(olds[k], p, olds[l - 1]);
            }
        } else if k == i {
            assert(news[l] == olds[l - 1]);
            if l - 1 > i {
                assert(pair_lt(olds[i as int], olds[l - 1]));
                lemma_pair_lt_trans(p, olds[i as int], olds[l - 1]);
            }
        } else {
            assert(news[k] == olds[k - 1]);
            assert(news[l] == olds[l - 1]);
        }
    }
    assert forall|x: (Seq<char>, Seq<char>)| news.contains(x) <==> (olds.contains(x) || x == p) by {
        if news.contains(x) {
            let k = choose|k: int| 0 <= k < news.len() && news[k] == x;
            if k < i {
                assert(olds[k] == x);
            } else if k > i {
                assert(olds[k - 1] == x);
            }
        }
        if olds.contains(x) {
            let k = choose|k: int| 0 <= k < olds.len() && olds[k] == x;
            if k < i {
                assert(news[k] == x);
            } else {
                assert(news[k + 1] == x);
            }
        }
        if x == p {
            assert(news[i as int] == x);
        }
    }
}

/// The overlaps of `ps`, ordered, sorted and once each.
pub open spec fn overlaps_of(ps: Seq<(Seq<char>, Seq<char>)>) -> Seq<(Seq<char>, Seq<char>)> {
    choose|out: Seq<(Seq<char>, Seq<char>)>| sorted_overlaps(out, ps)
}

proof fn lemma_increasing_unique(a: Seq<(Seq<char>, Seq<char>)>, b: Seq<(Seq<char>, Seq<char>)>)
    requires
        increasing(a),
        increasing(b),
        forall|x: (Seq<char>, Seq<char>)| a.contains(x) <==> b.contains(x),
    ensures
        a == b,
    decreases a.len(),
{
    if a.len() == 0 {
        if b.len() > 0 {
            assert(b.contains(b[0]));
        }
        assert(a =~= b);
    } else {
        assert(a.contains(a[0]));
        assert(b.len() > 0);
        assert(b.contains(b[0]));
        let j = choose|j: int| 0 <= j < b.len() && b[j] == a[0];
        let i = choose|i: int| 0 <= i < a.len() && a[i] == b[0];
        if j > 0 {
            assert(pair_lt(b[0], b[j]));
            if i > 0 {
                assert(pair_lt(a[0], a[i]));
                lemma_pair_lt_trans(b[0], a[0], b[0]);
            }
            lemma_pair_lt_total(b[0], b[0]);
        }
        let a1 = a.drop_first();
        let b1 = b.drop_first();
        assert forall|x: (Seq<char>, Seq<char>)| a1.contains(x) <==> b1.contains(x) by {
            if a1.contains(x) {
                let k = choose|k: int| 0 <= k < a1.len() && a1[k] == x;
                assert(a[k + 1] == x);
                assert(pair_lt(a[0], a[k + 1]));
                lemma_pair_lt_total(a[0], x);
                assert(b.contains(x));
                let l = choose|l: int| 0 <= l < b.len() && b[l] == x;
                assert(l != 0);
                assert(b1[l - 1] == x);
            }
            if b1.contains(x) {
                let k = choose|k: int| 0 <= k < b1.len() && b1[k] == x;
                assert(b[k + 1] == x);
                assert(pair_lt(b[0], b[k + 1]));
                lemma_pair_lt_total(b[0], x);
                assert(a.contains(x));
                let l = choose|l: int| 0 <= l < a.len() && a[l] == x;
                assert(l != 0);
                assert(a1[l - 1] == x);
            }
        }
        assert forall|k: int, l: int| 0 <= k < l < a1.len() implies pair_lt(#[trigger] a1[k], #[trigger] a1[l]) by {
            assert(a1[k] == a[k + 1]);
            assert(a1[l] == a[l + 1]);
        }
        assert forall|k: int, l: int| 0 <= k < l < b1.len() implies pair_lt(#[trigger] b1[k], #[trigger] b1[l]) by {
            assert(b1[k] == b[k + 1]);
            assert(b1[l] == b[l + 1]);
        }
        lemma_increasing_unique(a1, b1);
        assert(a =~= seq![a[0]] + a1);
        assert(b =~= seq![b[0]] + b1);
    }
}

/// The sorted overlaps of `ps` are unique.
pub proof fn lemma_overlaps_of(out: Seq<(Seq<char>, Seq<char>)>, ps: Seq<(Seq<char>, Seq<char>)>)
    requires
        sorted_overlaps(out, ps),
    ensures
        out == overlaps_of(ps),
{
    let o = overlaps_of(ps);
    assert(sorted_overlaps(o, ps));
    reveal(same_elements);
    lemma_increasing_unique(out, o);
}

/// Adding the ordered `q` to the sorted overlaps of `ps` gives those of `ps`
/// followed by `q`.
proof fn lemma_sorted_step(
    olds: Seq<(Seq<char>, Seq<char>)>,
    news: Seq<(Seq<char>, Seq<char>)>,
    ps: Seq<(Seq<char>, Seq<char>)>,
    q: (Seq<char>, Seq<char>),
)
    requires
        sorted_overlaps(olds, ps),
        increasing(news),
        forall|x: (Seq<char>, Seq<char>)| news.contains(x) <==> (olds.contains(x) || x == ordered(q)),
    ensures
        sorted_overlaps(news, ps.push(q)),
{
    reveal(same_elements);
    let a = ordered_all(ps);
    let b = ordered_all(ps.push(q));
    assert(b =~= a.push(ordered(q)));
    assert forall|x: (Seq<char>, Seq<char>)| news.contains(x) <==> b.contains(x) by {
        if x == ordered(q) {
            assert(b[a.len() as int] == x);
        }
        if b.contains(x) && x != ordered(q) {
            let m = choose|m: int| 0 <= m < b.len() && #[trigger] b[m] == x;
            assert(a[m] == x);
        }
        if a.contains(x) {
            let m = choose|m: int| 0 <= m < a.len() && #[trigger] a[m] == x;
            assert(b[m] == x);
        }
    }
}

/// Checks that `name` can stand in an overlap among the daughters `volumes`.
fn overlap_check<S, P, R>(volumes: &Vec<Volume<S, P, R>>, name: &str) -> (r: Result<(), OverlapError>)
    ensures
        match (r, overlap_fault(volume_views(volumes@), name@)) {
            (Ok(()), None) => true,
            (Err(e), Some(f)) => e@ == f,
            _ => false,
        },
{
    proof {
        reveal(overlap_fault);
    }
    match child_position(volumes, name) {
        None => Err(OverlapError::Undefined(to_owned(name))),
        Some(i) => {
            proof {
                lemma_view(volumes@[i as int]);
            }
            if volumes[i].position.is_some() || volumes[i].rotation.is_some() {
                Err(OverlapError::Displaced(to_owned(name)))
            } else {
                Ok(())
            }
        },
    }
}

/// The overlaps declared by `overlaps`, one after the other.
fn collect_pairs(overlaps: &Vec<(String, Vec<String>)>) -> (r: Vec<(&str, &str)>)
    ensures
        ref_pair_views(r@) == flat_overlaps(entry_views(overlaps@)),
{
    let ghost ev = entry_views(overlaps@);
    let mut flat: Vec<(&str, &str)> = Vec::new();
    let mut i: usize = 0;
    assert(ev.take(0) =~= Seq::<(Seq<char>, Seq<Seq<char>>)>::empty());
    assert(ref_pair_views(flat@) =~= flat_overlaps(ev.take(0)));
    while i < overlaps.len()
        invariant
            ev == entry_views(overlaps@),
            0 <= i <= overlaps@.len(),
            ref_pair_views(flat@) == flat_overlaps(ev.take(i as int)),
        decreases overlaps@.len() - i,
    {
        let left = overlaps[i].0.as_str();
        let rights = &overlaps[i].1;
        let ghost base = ref_pair_views(flat@);
        let ghost e = ev[i as int];
        assert(e == (left@, string_views(rights@)));
        let mut j: usize = 0;
        assert(pairs_of(e).take(0) =~= Seq::<(Seq<char>, Seq<char>)>::empty());
        assert(ref_pair_views(flat@) =~= base + pairs_of(e).take(0));
        while j < rights.len()
            invariant
                0 <= j <= rights@.len(),
                e == (left@, string_views(rights@)),
                ref_pair_views(flat@) == base + pairs_of(e).take(j as int),
            decreases rights@.len() - j,
        {
            let ghost before = flat@;
            flat.push((left, rights[j].as_str()));
            assert(pairs_of(e).take(j + 1) =~= pairs_of(e).take(j as int).push((left@, rights@[j as int]@)));
            assert(ref_pair_views(flat@) =~= ref_pair_views(before).push((left@, rights@[j as int]@)));
            j = j + 1;
        }
        assert(pairs_of(e).take(j as int) =~= pairs_of(e));
        assert(ev.take(i + 1).drop_last() =~= ev.take(i as int));
        assert(ev.take(i + 1).last() == e);
        i = i + 1;
    }
    assert(ev.take(i as int) =~= ev);
    flat
}

/// The overlaps `flat` among the daughters `volumes`, checked, ordered,
/// sorted and once each.
fn sort_overlaps<S, P, R>(flat: &Vec<(&str, &str)>, volumes: &Vec<Volume<S, P, R>>) -> (r: Result<Vec<(String, String)>, OverlapError>)
    ensures
        match r {
            Ok(out) => first_fault(volume_views(volumes@), ref_pair_views(flat@)) is None
                && sorted_overlaps(pair_views(out@), ref_pair_views(flat@)),
            Err(e) => first_fault(volume_views(volumes@), ref_pair_views(flat@)) == Some(e@),
        },
{
    let ghost vs = volume_views(volumes@);
    let ghost fl = ref_pair_views(flat@);
    let mut out: Vec<(String, String)> = Vec::new();
    let mut k: usize = 0;
    assert(fl.skip(0) =~= fl);
    assert(sorted_overlaps(pair_views(out@), fl.take(0))) by {
        reveal(same_elements);
        assert(ordered_all(fl.take(0)) =~= Seq::<(Seq<char>, Seq<char>)>::empty());
        assert(pair_views(out@) =~= Seq::<(Seq<char>, Seq<char>)>::empty());
    }
    while k < flat.len()
        invariant
            fl == ref_pair_views(flat@),
            vs == volume_views(volumes@),
            0 <= k <= flat@.len(),
            first_fault(vs, fl) == first_fault(vs, fl.skip(k as int)),
            sorted_overlaps(pair_views(out@), fl.take(k as int)),
        decreases flat@.len() - k,
    {
        let (left, right) = flat[k];
        proof {
            assert(fl.skip(k as int)[0] == (left@, right@));
            assert(fl.skip(k as int).drop_first() =~= fl.skip(k + 1));
            lemma_first_fault(vs, fl.skip(k as int));
        }
        if let Err(e) = overlap_check(volumes, left) {
            return Err(e);
        }
        if let Err(e) = overlap_check(volumes, right) {
            return Err(e);
        }
        let ghost olds = pair_views(out@);
        if str_less(right, left) {
            insert_sorted(&mut out, right, left);
        } else {
            insert_sorted(&mut out, left, right);
        }
        proof {
            assert(fl.take(k + 1) =~= fl.take(k as int).push((left@, right@)));
            lemma_sorted_step(olds, pair_views(out@), fl.take(k as int), (left@, right@));
        }
        k = k + 1;
    }
    proof {
        assert(fl.take(k as int) =~= fl);
        assert(fl.skip(k as int) =~= Seq::<(Seq<char>, Seq<char>)>::empty());
        lemma_first_fault(vs, fl.skip(k as int));
    }
    Ok(out)
}

/// The overlaps declared by `overlaps`, each a left volume with its right
/// volumes, among the daughters `volumes`: each pair is put in order, then
/// all are sorted, once each. Every name must be that of a daughter that is
/// neither placed nor turned; the first that is not, left before right, is
/// reported.
pub fn flatten_overlaps<S, P, R>(overlaps: &Vec<(String, Vec<String>)>, volumes: &Vec<Volume<S, P, R>>) -> (r: Result<Vec<(String, String)>, OverlapError>)
    ensures
        match r {
            Ok(out) => first_fault(volume_views(volumes@), flat_overlaps(entry_views(overlaps@))) is None
                && pair_views(out@) == overlaps_of(flat_overlaps(entry_views(overlaps@)))
                && sorted_overlaps(pair_views(out@), flat_overlaps(entry_views(overlaps@))),
            Err(e) => first_fault(volume_views(volumes@), flat_overlaps(entry_views(overlaps@))) == Some(e@),
        },
{
    let flat = collect_pairs(overlaps);
    let r = sort_overlaps(&flat, volumes);
    proof {
        if let Ok(out) = &r {
            lemma_overlaps_of(pair_views(out@), ref_pair_views(flat@));
        }
    }
    r
}

/// The lower-case name of a shape type.
pub open spec fn shape_name(t: ShapeType) -> Seq<char> {
    match t {
        ShapeType::Box => "box"@,
        ShapeType::Cylinder => "cylinder"@,
        ShapeType::Envelope => "envelope"@,
        ShapeType::Sphere => "sphere"@,
        ShapeType::Tessellation => "tessellation"@,
    }
}

/// The names of all shape types, in declaration order.
pub open spec fn shape_names() -> Seq<Seq<char>> {
    seq!["box"@, "cylinder"@, "envelope"@, "sphere"@, "tessellation"@]
}

/// The shape type named `s`, if any.
pub open spec fn shape_named(s: Seq<char>) -> Option<ShapeType> {
    if s == "box"@ {
        Some(ShapeType::Box)
    } else if s == "cylinder"@ {
        Some(ShapeType::Cylinder)
    } else if s == "envelope"@ {
        Some(ShapeType::Envelope)
    } else if s == "sphere"@ {
        Some(ShapeType::Sphere)
    } else if s == "tessellation"@ {
        Some(ShapeType::Tessellation)
    } else {
        None
    }
}

/// The names of all shape types.
pub fn shape_options() -> (r: Vec<&'static str>)
    ensures
        views(r@) == shape_names(),
{
    let r = vec!["box", "cylinder", "envelope", "sphere", "tessellation"];
    assert(views(r@) =~= shape_names());
    r
}

/// The name of a shape type.
pub fn shape_to_str(t: ShapeType) -> (r: &'static str)
    ensures
        r@ == shape_name(t),
{
    match t {
        ShapeType::Box => "box",
        ShapeType::Cylinder => "cylinder",
        ShapeType::Envelope => "envelope",
        ShapeType::Sphere => "sphere",
        ShapeType::Tessellation => "tessellation",
    }
}

/// The shape type named `s`, or else the names of all shape types.
pub fn shape_from_str(s: &str) -> (r: Result<ShapeType, Vec<&'static str>>)
    ensures
        match r {
            Ok(t) => shape_named(s@) == Some(t),
            Err(options) => views(options@) == shape_names() && shape_named(s@) is None,
        },
{
    if str_eq(s, "box") {
        Ok(ShapeType::Box)
    } else if str_eq(s, "cylinder") {
        Ok(ShapeType::Cylinder)
    } else if str_eq(s, "envelope") {
        Ok(ShapeType::Envelope)
    } else if str_eq(s, "sphere") {
        Ok(ShapeType::Sphere)
    } else if str_eq(s, "tessellation") {
        Ok(ShapeType::Tessellation)
    } else {
        Err(shape_options())
    }
}

/// Whether a key of a volume definition names a daughter volume rather than
/// a shape: it starts with an uppercase letter.
pub fn is_volume_key(key: &str) -> (r: bool)
    ensures
        r == (key@.len() > 0 && uppercase(key@[0])),
        (key@.len() == 0 || (key@[0] as int) < 128) ==> r == (key@.len() > 0 && 'A' <= key@[0] <= 'Z'),
{
    if key.unicode_len() == 0 {
        false
    } else {
        is_uppercase(key.get_char(0))
    }
}

/// Why the shape keys of a volume definition are refused.
pub enum ShapeKeyError {
    /// A key that names no shape type (the word `None` when there is no key).
    Unknown(String),
    /// Two or more shapes are defined, the first two given.
    Multiple(String, String),
}

/// Mathematical view of a `ShapeKeyError`.
pub ghost enum ShapeKeyFault {
    Unknown(Seq<char>),
    Multiple(Seq<char>, Seq<char>),
}

impl View for ShapeKeyError {
    type V = ShapeKeyFault;

    open spec fn view(&self) -> ShapeKeyFault {
        match self {
            ShapeKeyError::Unknown(s) => ShapeKeyFault::Unknown(s@),
            ShapeKeyError::Multiple(a, b) => ShapeKeyFault::Multiple(a@, b@),
        }
    }
}

/// The shape type of a volume defined with the shape keys `keys`, in order,
/// or why they are refused: there must be one key, naming a shape type; a
/// second key is checked before the definition is refused as multiple.
pub open spec fn select_shape_spec(keys: Seq<Seq<char>>) -> Result<ShapeType, ShapeKeyFault> {
    if keys.len() == 0 {
        Err(ShapeKeyFault::Unknown("None"@))
    } else if shape_named(keys[0]) is None {
        Err(ShapeKeyFault::Unknown(keys[0]))
    } else if keys.len() == 1 {
        Ok(shape_named(keys[0])->0)
    } else if shape_named(keys[1]) is None {
        Err(ShapeKeyFault::Unknown(keys[1]))
    } else {
        Err(ShapeKeyFault::Multiple(keys[0], keys[1]))
    }
}

/// The shape type of a volume defined with the shape keys `keys`.
pub fn select_shape(keys: &[&str]) -> (r: Result<ShapeType, ShapeKeyError>)
    ensures
        match (r, select_shape_spec(views(keys@))) {
            (Ok(t), Ok(u)) => t == u,
            (Err(e), Err(f)) => e@ == f,
            _ => false,
        },
{
    if keys.len() == 0 {
        return Err(ShapeKeyError::Unknown(String::from_str("None")));
    }
    let t = match shape_from_str(keys[0]) {
        Ok(t) => t,
        Err(_) => return Err(ShapeKeyError::Unknown(to_owned(keys[0]))),
    };
    if keys.len() > 1 {
        if shape_from_str(keys[1]).is_err() {
            return Err(ShapeKeyError::Unknown(to_owned(keys[1])));
        }
        return Err(ShapeKeyError::Multiple(to_owned(keys[0]), to_owned(keys[1])));
    }
    Ok(t)
}

/// The text of a shape key error, given the header naming the volume.
pub open spec fn shape_key_text(header: Seq<char>, f: ShapeKeyFault) -> Seq<char> {
    match f {
        ShapeKeyFault::Unknown(s) => header + " ("@ + explain_text(s, shape_names()) + ")"@,
        ShapeKeyFault::Multiple(a, b) => header + " (multiple shape definitions ("@ + a + ", "@ + b
            + ", ...))"@,
    }
}

impl ShapeKeyError {
    /// The message of this error, after `header`, the report that the volume
    /// is bad.
    pub fn message(&self, header: &str) -> (r: String)
        ensures
            r@ == shape_key_text(header@, self@),
    {
        match self {
            ShapeKeyError::Unknown(s) => {
                let options = shape_options();
                assert(options@.len() == views(options@).len());
                variant_error(header, s.as_str(), options.as_slice())
            },
            ShapeKeyError::Multiple(a, b) => {
                let mut text = to_owned(header);
                text.append(" (multiple shape definitions (");
                text.append(a.as_str());
                text.append(", ");
                text.append(b.as_str());
                text.append(", ...))");
                text
            },
        }
    }
}

/// The shape of an envelope named `s`: a box, a cylinder or a sphere, or else
/// the names of these.
pub fn envelope_shape(s: &str) -> (r: Result<ShapeType, Vec<&'static str>>)
    ensures
        match r {
            Ok(t) => shape_named(s@) == Some(t) && t != ShapeType::Envelope && t != ShapeType::Tessellation,
            Err(options) => views(options@) == seq!["box"@, "cylinder"@, "sphere"@]
                && !(shape_named(s@) matches Some(t) && t != ShapeType::Envelope && t != ShapeType::Tessellation),
        },
{
    let options = vec!["box", "cylinder", "sphere"];
    assert(views(options@) =~= seq!["box"@, "cylinder"@, "sphere"@]);
    match shape_from_str(s) {
        Ok(ShapeType::Box) => Ok(ShapeType::Box),
        Ok(ShapeType::Cylinder) => Ok(ShapeType::Cylinder),
        Ok(ShapeType::Sphere) => Ok(ShapeType::Sphere),
        _ => Err(options),
    }
}

/// Where the facets of a tessellated shape are read from, by the extension
/// of its file.
#[derive(Clone, Copy, PartialEq, Eq, Structural, Debug)]
pub enum TessellationSource {
    /// `stl`: a binary STL file.
    Stl,
    /// `png` or `tif`: a topography map, meshed.
    Topography,
}

/// Why the facets of a tessellated shape are not read.
#[derive(Clone, Copy, PartialEq, Eq, Structural, Debug)]
pub enum TessellationError {
    /// An STL file is given a minimum depth.
    MinDepth,
    /// An STL file is given an origin.
    Origin,
    /// The extension names no source read.
    Unimplemented,
}

impl TessellationError {
    /// The option refused, if one is.
    pub fn what(&self) -> (r: Option<&'static str>)
        ensures
            match self {
                TessellationError::MinDepth => r matches Some(w) && w@ == "min_depth"@,
                TessellationError::Origin => r matches Some(w) && w@ == "origin"@,
                TessellationError::Unimplemented => r is None,
            },
    {
        match self {
            TessellationError::MinDepth => Some("min_depth"),
            TessellationError::Origin => Some("origin"),
            TessellationError::Unimplemented => None,
        }
    }
}

/// Where the facets of a tessellated shape whose file has the extension
/// `extension` are read from, given whether an origin and a minimum depth
/// are given: these apply to maps only, the minimum depth being checked
/// first.
pub open spec fn tessellation_spec(extension: Option<Seq<char>>, origin: bool, min_depth: bool) -> Result<TessellationSource, TessellationError> {
    match extension {
        Some(e) => if e == "stl"@ {
            if min_depth {
                Err(TessellationError::MinDepth)
            } else if origin {
                Err(TessellationError::Origin)
            } else {
                Ok(TessellationSource::Stl)
            }
        } else if e == "png"@ || e == "tif"@ {
            Ok(TessellationSource::Topography)
        } else {
            Err(TessellationError::Unimplemented)
        },
        None => Err(TessellationError::Unimplemented),
    }
}

/// Where the facets of a tessellated shape are read from.
pub fn tessellation_source(extension: Option<&str>, origin: bool, min_depth: bool) -> (r: Result<TessellationSource, TessellationError>)
    ensures
        r == tessellation_spec(
            match extension {
                Some(e) => Some(e@),
                None => None,
            },
            origin,
            min_depth,
        ),
{
    match extension {
        Some(e) => {
            if str_eq(e, "stl") {
                if min_depth {
                    Err(TessellationError::MinDepth)
                } else if origin {
                    Err(TessellationError::Origin)
                } else {
                    Ok(TessellationSource::Stl)
                }
            } else if str_eq(e, "png") || str_eq(e, "tif") {
                Ok(TessellationSource::Topography)
            } else {
                Err(TessellationError::Unimplemented)
            }
        },
        None => Err(TessellationError::Unimplemented),
    }
}

/// What stands under a key of a volume definition, once read: a shape, or
/// the definition of a daughter volume.
pub enum DefinitionValue<S, P, R> {
    Shape(S),
    Volume(VolumeDefinition<S, P, R>),
}

/// The definition of a volume, as read from a configuration: its material,
/// placement and overlaps, and its other keys, in order, each with what it
/// holds. A capitalised key names a daughter volume, any other a shape.
pub struct VolumeDefinition<S, P, R> {
    pub material: String,
    pub position: Option<P>,
    pub rotation: Option<R>,
    pub overlaps: Option<Vec<(String, Vec<String>)>>,
    pub keys: Vec<(String, DefinitionValue<S, P, R>)>,
}

/// Why a volume definition is refused.
pub enum DefinitionError {
    /// The name of a volume is refused.
    BadName(String, NameError),
    /// The shape keys of a volume are refused.
    BadShape(ShapeKeyError),
    /// The shape key holds no shape.
    NotAShape(String),
    /// The daughter key holds no volume definition.
    NotAVolume(String),
    /// An overlap of a volume is refused.
    BadOverlap(OverlapError),
}

/// Mathematical view of a `DefinitionError`.
pub ghost enum DefinitionFault {
    BadName(Seq<char>, NameError),
    BadShape(ShapeKeyFault),
    NotAShape(Seq<char>),
    NotAVolume(Seq<char>),
    BadOverlap(OverlapFault),
}

impl View for DefinitionError {
    type V = DefinitionFault;

    open spec fn view(&self) -> DefinitionFault {
        match self {
            DefinitionError::BadName(n, e) => DefinitionFault::BadName(n@, *e),
            DefinitionError::BadShape(e) => DefinitionFault::BadShape(e@),
            DefinitionError::NotAShape(k) => DefinitionFault::NotAShape(k@),
            DefinitionError::NotAVolume(k) => DefinitionFault::NotAVolume(k@),
            DefinitionError::BadOverlap(e) => DefinitionFault::BadOverlap(e@),
        }
    }
}

/// Whether `key` names a daughter volume: it starts with a capital.
pub open spec fn volume_key(key: Seq<char>) -> bool {
    key.len() > 0 && uppercase(key[0])
}

/// The positions of the shape keys among `keys`, in order.
pub open spec fn shape_positions<S, P, R>(keys: Seq<(String, DefinitionValue<S, P, R>)>) -> Seq<int>
    decreases keys.len(),
{
    if keys.len() == 0 {
        Seq::empty()
    } else if volume_key(keys.last().0@) {
        shape_positions(keys.drop_last())
    } else {
        shape_positions(keys.drop_last()).push(keys.len() - 1)
    }
}

/// The shape keys among `keys`, in order.
pub open spec fn shape_keys<S, P, R>(keys: Seq<(String, DefinitionValue<S, P, R>)>) -> Seq<Seq<char>> {
    shape_positions(keys).map_values(|p: int| keys[p].0@)
}

/// The volume of name `name` defined by `d`, or why it is refused: its name
/// is checked, then its shape keys, then what the shape key holds; then its
/// daughters are assembled in order, and its overlaps flattened.
pub open spec fn assemble_spec<S, P, R>(name: Seq<char>, d: VolumeDefinition<S, P, R>) -> Result<VolumeView<S, P, R>, DefinitionFault>
    decreases d, d.keys@.len() + 1,
{
    if name_error(name) is Some {
        Err(DefinitionFault::BadName(name, name_error(name)->0))
    } else {
        match select_shape_spec(shape_keys(d.keys@)) {
            Err(f) => Err(DefinitionFault::BadShape(f)),
            Ok(_) => {
                let first = shape_positions(d.keys@)[0];
                match d.keys@[first].1 {
                    DefinitionValue::Volume(_) => Err(DefinitionFault::NotAShape(d.keys@[first].0@)),
                    DefinitionValue::Shape(s) => match assemble_daughters(d, 0) {
                        Err(f) => Err(f),
                        Ok(vs) => {
                            let (overlaps, fault) = match d.overlaps {
                                None => (Seq::empty(), None),
                                Some(o) => {
                                    let ps = flat_overlaps(entry_views(o@));
                                    (overlaps_of(ps), first_fault(vs, ps))
                                },
                            };
                            match fault {
                                Some(f) => Err(DefinitionFault::BadOverlap(f)),
                                None => Ok(VolumeView {
                                    name,
                                    material: d.material@,
                                    shape: s,
                                    position: d.position,
                                    rotation: d.rotation,
                                    volumes: vs,
                                    overlaps,
                                    roles: no_roles(),
                                    subtract: Seq::empty(),
                                }),
                            }
                        },
                    },
                }
            },
        }
    }
}

/// The daughters defined by the keys of `d` from position `i` on, named by
/// their keys, in order; or why the first refused one is.
pub open spec fn assemble_daughters<S, P, R>(d: VolumeDefinition<S, P, R>, i: int) -> Result<Seq<VolumeView<S, P, R>>, DefinitionFault>
    decreases d, d.keys@.len() - i,
{
    if i < 0 || i >= d.keys@.len() {
        Ok(Seq::empty())
    } else if !volume_key(d.keys@[i].0@) {
        assemble_daughters(d, i + 1)
    } else {
        match d.keys@[i].1 {
            DefinitionValue::Shape(_) => Err(DefinitionFault::NotAVolume(d.keys@[i].0@)),
            DefinitionValue::Volume(c) => match assemble_spec(d.keys@[i].0@, c) {
                Err(f) => Err(f),
                Ok(v) => match assemble_daughters(d, i + 1) {
                    Err(f) => Err(f),
                    Ok(vs) => Ok(seq![v] + vs),
                },
            },
        }
    }
}

/// Prefixes `vs` to the volumes of `r`, if any.
pub open spec fn prefixed<S, P, R>(vs: Seq<VolumeView<S, P, R>>, r: Result<Seq<VolumeView<S, P, R>>, DefinitionFault>) -> Result<Seq<VolumeView<S, P, R>>, DefinitionFault> {
    match r {
        Ok(ws) => Ok(vs + ws),
        Err(f) => Err(f),
    }
}

/// The volume named `name` defined by `definition`: a name checked, a shape
/// selected among the non-capitalised keys and taken from the first, the
/// daughters assembled in the order of their keys and named by them, the
/// overlaps flattened; no roles and nothing subtracted.
#[verifier::loop_isolation(false)]
pub fn assemble_volume<S, P, R>(name: String, definition: VolumeDefinition<S, P, R>) -> (r: Result<Volume<S, P, R>, DefinitionError>)
    ensures
        match (r, assemble_spec(name@, definition)) {
            (Ok(v), Ok(w)) => v@ == w,
            (Err(e), Err(f)) => e@ == f,
            _ => false,
        },
    decreases definition, definition.keys@.len() + 1,
{
    let ghost d0 = definition;
    let ghost ks = definition.keys@;
    if let Err(e) = check(name.as_str()) {
        return Err(DefinitionError::BadName(name, e));
    }
    // The shape keys, in order.
    let mut positions: Vec<usize> = Vec::new();
    let mut names: Vec<&str> = Vec::new();
    let mut i: usize = 0;
    while i < definition.keys.len()
        invariant
            ks == definition.keys@,
            0 <= i <= ks.len(),
            positions@.len() == names@.len(),
            positions@.map_values(|p: usize| p as int) == shape_positions(ks.take(i as int)),
            forall|k: int| 0 <= k < names@.len() ==> #[trigger] names@[k]@ == ks[positions@[k] as int].0@,
            forall|k: int| 0 <= k < positions@.len() ==> #[trigger] positions@[k] < i,
        decreases ks.len() - i,
    {
        assert(ks.take(i + 1).drop_last() =~= ks.take(i as int));
        assert(ks.take(i + 1).last() == ks[i as int]);
        if !is_volume_key(definition.keys[i].0.as_str()) {
            positions.push(i);
            names.push(definition.keys[i].0.as_str());
            assert(positions@.map_values(|p: usize| p as int) =~= shape_positions(ks.take(i as int)).push(i as int));
        } else {
            assert(positions@.map_values(|p: usize| p as int) =~= shape_positions(ks.take(i as int)));
        }
        i = i + 1;
    }
    assert(ks.take(i as int) =~= ks);
    assert(views(names@) =~= shape_keys(ks)) by {
        assert forall|k: int| 0 <= k < names@.len() implies views(names@)[k] == shape_keys(ks)[k] by {
            assert(positions@.map_values(|p: usize| p as int)[k] == positions@[k] as int);
        }
    }
    if let Err(e) = select_shape(names.as_slice()) {
        return Err(DefinitionError::BadShape(e));
    }
    let first = positions[0];
    assert(shape_positions(ks)[0] == first as int) by {
        assert(positions@.map_values(|p: usize| p as int)[0] == positions@[0] as int);
    }
    if let DefinitionValue::Volume(_) = &definition.keys[first].1 {
        return Err(DefinitionError::NotAShape(definition.keys[first].0.clone()));
    }
    let VolumeDefinition { material, position, rotation, overlaps, keys } = definition;
    let mut keys = keys;
    let mut shape: Option<S> = None;
    let mut volumes: Vec<Volume<S, P, R>> = Vec::new();
    let mut j: usize = 0;
    while keys.len() > 0
        invariant
            ks == d0.keys@,
            first < ks.len(),
            ks[first as int].1 is Shape,
            0 <= j <= ks.len(),
            keys@ == ks.skip(j as int),
            assemble_daughters(d0, 0) == prefixed(volume_views(volumes@), assemble_daughters(d0, j as int)),
            match shape {
                Some(s) => first < j && ks[first as int].1 == DefinitionValue::<S, P, R>::Shape(s),
                None => j <= first,
            },
        decreases keys@.len(),
    {
        let ghost before = volume_views(volumes@);
        assert(keys@[0] == ks[j as int]);
        let (k, v) = keys.remove(0);
        assert(keys@ =~= ks.skip(j + 1));
        if is_volume_key(k.as_str()) {
            match v {
                DefinitionValue::Shape(_) => {
                    return Err(DefinitionError::NotAVolume(k));
                },
                DefinitionValue::Volume(c) => {
                    assert(decreases_to!(d0 => c)) by {
                        assert(decreases_to!(d0 => d0.keys));
                        assert(decreases_to!(d0.keys => d0.keys@));
                        assert(decreases_to!(d0.keys@ => d0.keys@[j as int]));
                    }
                    match assemble_volume(k, c) {
                        Err(e) => {
                            return Err(e);
                        },
                        Ok(child) => {
                            volumes.push(child);
                            proof {
                                broadcast use lemma_views_push;
                                let rest = assemble_daughters(d0, j + 1);
                                assert(before.push(child@) =~= before + seq![child@]);
                                match rest {
                                    Ok(ws) => {
                                        assert(before + (seq![child@] + ws) =~= before.push(child@) + ws);
                                    },
                                    Err(_) => {},
                                }
                            }
                        },
                    }
                },
            }
        } else if j == first {
            match v {
                DefinitionValue::Shape(s) => {
                    shape = Some(s);
                },
                DefinitionValue::Volume(_) => {
                    assert(false);
                },
            }
        }
        j = j + 1;
    }
    assert(j == ks.len());
    assert(volume_views(volumes@) + Seq::empty() =~= volume_views(volumes@));
    let s = match shape {
        Some(s) => s,
        None => {
            assert(false);
            return Err(DefinitionError::NotAShape(name));
        },
    };
    let flat = match overlaps {
        None => Vec::new(),
        Some(o) => match flatten_overlaps(&o, &volumes) {
            Ok(flat) => flat,
            Err(e) => {
                return Err(DefinitionError::BadOverlap(e));
            },
        },
    };
    let roles = Roles::default();
    let v = Volume {
        name,
        material,
        shape: s,
        position,
        rotation,
        volumes,
        overlaps: flat,
        roles,
        subtract: Vec::new(),
    };
    proof {
        lemma_view(v);
        assert(string_views(v.subtract@) =~= Seq::<Seq<char>>::empty());
        if d0.overlaps is None {
            assert(pair_views(v.overlaps@) =~= Seq::<(Seq<char>, Seq<char>)>::empty());
        }
    }
    Ok(v)
}

/// Law: a volume assembled from a definition is named by the name given,
/// and takes the definition's material, position and rotation as they are;
/// its shape is what the first shape key holds, and it starts with no roles
/// and nothing subtracted.
pub proof fn law_assembled_volume<S, P, R>(name: Seq<char>, d: VolumeDefinition<S, P, R>)
    ensures
        assemble_spec(name, d) matches Ok(v) ==> {
            &&& name_error(name) is None
            &&& v.name == name
            &&& v.material == d.material@
            &&& v.position == d.position
            &&& v.rotation == d.rotation
            &&& d.keys@[shape_positions(d.keys@)[0]].1 == DefinitionValue::<S, P, R>::Shape(v.shape)
            &&& v.roles == no_roles()
            &&& v.subtract == Seq::<Seq<char>>::empty()
        },
{
}

/// The capitalised keys among `keys`, from position `i` on, in order: the
/// names of the daughters that they define.
pub open spec fn daughter_keys<S, P, R>(keys: Seq<(String, DefinitionValue<S, P, R>)>, i: int) -> Seq<Seq<char>>
    decreases keys.len() - i,
{
    if i < 0 || i >= keys.len() {
        Seq::empty()
    } else if volume_key(keys[i].0@) {
        seq![keys[i].0@] + daughter_keys(keys, i + 1)
    } else {
        daughter_keys(keys, i + 1)
    }
}

/// The daughters assembled from position `i` on are named by the
/// capitalised keys from there, in order.
proof fn lemma_daughters_named<S, P, R>(d: VolumeDefinition<S, P, R>, i: int)
    ensures
        assemble_daughters(d, i) matches Ok(vs) ==> vs.map_values(|v: VolumeView<S, P, R>| v.name)
            == daughter_keys(d.keys@, i),
    decreases d.keys@.len() - i,
{
    if 0 <= i < d.keys@.len() {
        lemma_daughters_named(d, i + 1);
        if volume_key(d.keys@[i].0@) {
            if let DefinitionValue::Volume(c) = d.keys@[i].1 {
                law_assembled_volume(d.keys@[i].0@, c);
                if let Ok(vs) = assemble_daughters(d, i) {
                    let ws = assemble_daughters(d, i + 1)->Ok_0;
                    assert(vs.map_values(|v: VolumeView<S, P, R>| v.name) =~= seq![d.keys@[i].0@]
                        + ws.map_values(|v: VolumeView<S, P, R>| v.name));
                }
            }
        }
    }
}

/// Law: the daughters of an assembled volume are those defined under its
/// capitalised keys, in the order of the keys, each named by its key.
pub proof fn law_assembled_daughters<S, P, R>(name: Seq<char>, d: VolumeDefinition<S, P, R>)
    ensures
        assemble_spec(name, d) matches Ok(v) ==> v.volumes.map_values(|w: VolumeView<S, P, R>| w.name)
            == daughter_keys(d.keys@, 0),
{
    lemma_daughters_named(d, 0);
}

} // verus!
