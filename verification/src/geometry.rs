//! Geometry definitions, and the builder that edits them by dotted path names.
pub mod map;
pub mod materials;
pub mod mixtures;
pub mod volume;

use crate::cxx::{DaughterInfo, Roles, TSTAlgorithm, VolumeInfo};
use materials::{merge, opt_view, MaterialsDefinition};
use crate::utils::text::{decimal, decimal_text, lemma_rsplit_once, rsplit_once, spec_rsplit_once, spec_split, str_eq, to_owned};
use crate::simulation::sampler::{parse_roles, string_views};
use crate::utils::error::views;
use volume::{
    check, child_position, entry_views, find_path, first_fault, flat_overlaps, flatten_overlaps,
    overlaps_of, OverlapError, OverlapFault, first_named, lemma_first_named, lemma_first_named_same, lemma_view, name_error, ascii_name_error, is_ascii, node_at, node_mut,
    path_index, set_at, usize_path, valid_path, volume_views, NameError, VolumeView,
    assemble_spec, assemble_volume, DefinitionError, DefinitionFault, VolumeDefinition,
};
use convert_case::{Case, Casing};
use vstd::prelude::*;

verus! {

/// Traversal algorithm for tessellated shapes.
#[derive(Clone, Copy, PartialEq, Eq, Structural, Debug)]
pub enum Algorithm {
    Bvh,
    Geant4,
}

impl Algorithm {
    /// The lower-case name of the algorithm.
    pub open spec fn name(self) -> Seq<char> {
        match self {
            Algorithm::Bvh => "bvh"@,
            Algorithm::Geant4 => "geant4"@,
        }
    }

    /// The names of all algorithms, in declaration order.
    pub open spec fn names() -> Seq<Seq<char>> {
        seq!["bvh"@, "geant4"@]
    }

    pub fn options() -> (r: Vec<&'static str>)
        ensures
            views(r@) == Self::names(),
    {
        let r = vec!["bvh", "geant4"];
        assert(views(r@) =~= Self::names());
        r
    }

    pub fn to_str(&self) -> (r: &'static str)
        ensures
            r@ == self.name(),
    {
        match self {
            Algorithm::Bvh => "bvh",
            Algorithm::Geant4 => "geant4",
        }
    }

    /// The algorithm named `s`, or else the names of all algorithms.
    pub fn from_str(s: &str) -> (r: Result<Self, Vec<&'static str>>)
        ensures
            match r {
                Ok(a) => a.name() == s@,
                Err(options) => views(options@) == Self::names()
                    && forall|a: Algorithm| a.name() != s@,
            },
    {
        if str_eq(s, "bvh") {
            Ok(Algorithm::Bvh)
        } else if str_eq(s, "geant4") {
            Ok(Algorithm::Geant4)
        } else {
            Err(Self::options())
        }
    }

    pub fn default() -> (r: Algorithm)
        ensures
            r == Algorithm::Bvh,
    {
        Algorithm::Bvh
    }

    /// The engine's algorithm.
    pub fn into_ffi(self) -> (r: TSTAlgorithm)
        ensures
            r == match self {
                Algorithm::Bvh => TSTAlgorithm::Bvh,
                Algorithm::Geant4 => TSTAlgorithm::Geant4,
            },
    {
        match self {
            Algorithm::Bvh => TSTAlgorithm::Bvh,
            Algorithm::Geant4 => TSTAlgorithm::Geant4,
        }
    }
}

/// A refused geometry operation.
pub enum BuilderError {
    /// No volume at this path.
    UnknownVolume(String),
    /// The root volume cannot be deleted.
    DeleteRoot(String),
    /// The root volume cannot be relocated.
    RelocateRoot(String),
    /// A volume cannot be relocated as the root volume.
    RelocateAsRoot(String),
    /// A refused volume name.
    BadName(String, NameError),
    /// A refused overlap.
    BadOverlap(OverlapError),
    /// A refused role, with its explanation.
    BadRole(String),
}

/// Mathematical view of a `BuilderError`.
pub ghost enum Fault {
    UnknownVolume(Seq<char>),
    DeleteRoot(Seq<char>),
    RelocateRoot(Seq<char>),
    RelocateAsRoot(Seq<char>),
    BadName(Seq<char>, NameError),
    BadOverlap(OverlapFault),
    BadRole(Seq<char>),
}

impl View for BuilderError {
    type V = Fault;

    open spec fn view(&self) -> Fault {
        match self {
            BuilderError::UnknownVolume(s) => Fault::UnknownVolume(s@),
            BuilderError::DeleteRoot(s) => Fault::DeleteRoot(s@),
            BuilderError::RelocateRoot(s) => Fault::RelocateRoot(s@),
            BuilderError::RelocateAsRoot(s) => Fault::RelocateAsRoot(s@),
            BuilderError::BadName(s, e) => Fault::BadName(s@, *e),
            BuilderError::BadOverlap(e) => Fault::BadOverlap(e@),
            BuilderError::BadRole(s) => Fault::BadRole(s@),
        }
    }
}

/// The outcome of an operation, by its view.
pub open spec fn outcome_view(r: Result<(), BuilderError>) -> Result<(), Fault> {
    match r {
        Ok(()) => Ok(()),
        Err(e) => Err(e@),
    }
}

/// `vs` without the volumes named `name`.
pub open spec fn drop_named<S, P, R>(vs: Seq<VolumeView<S, P, R>>, name: Seq<char>) -> Seq<VolumeView<S, P, R>>
    decreases vs.len(),
{
    if vs.len() == 0 {
        vs
    } else if vs.last().name == name {
        drop_named(vs.drop_last(), name)
    } else {
        drop_named(vs.drop_last(), name).push(vs.last())
    }
}

/// `v` with its daughters replaced by `vs`.
pub open spec fn with_volumes<S, P, R>(v: VolumeView<S, P, R>, vs: Seq<VolumeView<S, P, R>>) -> VolumeView<S, P, R> {
    VolumeView { volumes: vs, ..v }
}

/// `v` renamed `name`.
pub open spec fn with_name<S, P, R>(v: VolumeView<S, P, R>, name: Seq<char>) -> VolumeView<S, P, R> {
    VolumeView { name, ..v }
}

/// The error for an operation on an unknown `path`, or on the root volume when
/// `path` names it.
pub open spec fn delete_fault<S, P, R>(root: VolumeView<S, P, R>, path: Seq<char>) -> Fault {
    if root.name == path {
        Fault::DeleteRoot(path)
    } else {
        Fault::UnknownVolume(path)
    }
}

/// The root volume after deleting the volume at `path`, and the answer.
pub open spec fn delete_spec<S, P, R>(root: VolumeView<S, P, R>, path: Seq<char>) -> (VolumeView<S, P, R>, Result<(), Fault>) {
    match spec_rsplit_once(path, '.') {
        Some((mother, name)) => match path_index(root, mother) {
            None => (root, Err(Fault::UnknownVolume(mother))),
            Some(p) => {
                let m = node_at(root, p);
                let kept = drop_named(m.volumes, name);
                if kept.len() < m.volumes.len() {
                    (set_at(root, p, with_volumes(m, kept)), Ok(()))
                } else {
                    (root, Err(delete_fault(root, path)))
                }
            },
        },
        None => (root, Err(delete_fault(root, path))),
    }
}

proof fn lemma_drop_named_len<S, P, R>(vs: Seq<VolumeView<S, P, R>>, name: Seq<char>)
    ensures
        drop_named(vs, name).len() <= vs.len(),
        drop_named(vs, name).len() == vs.len() ==> drop_named(vs, name) == vs,
    decreases vs.len(),
{
    if vs.len() > 0 {
        lemma_drop_named_len(vs.drop_last(), name);
        if drop_named(vs, name).len() == vs.len() {
            assert(vs.last().name != name);
            assert(vs.drop_last().push(vs.last()) =~= vs);
        }
    }
}

/// Removes from `volumes` those named `name`.
fn retain_unnamed<S, P, R>(volumes: &mut Vec<volume::Volume<S, P, R>>, name: &str)
    ensures
        volume_views(final(volumes)@) == drop_named(volume_views(old(volumes)@), name@),
{
    let ghost orig = volume_views(old(volumes)@);
    let ghost n: int = orig.len() as int;
    let ghost mut j: int = 0;
    let mut i: usize = 0;
    assert(drop_named(orig.subrange(0, 0), name@) =~= Seq::<VolumeView<S, P, R>>::empty());
    assert(volume_views(volumes@).subrange(0, 0) =~= Seq::<VolumeView<S, P, R>>::empty());
    while i < volumes.len()
        invariant
            0 <= i <= volumes@.len(),
            0 <= j <= n,
            n == orig.len(),
            volumes@.len() - i == n - j,
            volume_views(volumes@).subrange(0, i as int) == drop_named(orig.subrange(0, j), name@),
            volume_views(volumes@).subrange(i as int, volumes@.len() as int) == orig.subrange(j, n),
        decreases volumes@.len() - i,
    {
        let ghost before = volume_views(volumes@);
        assert(orig.subrange(0, j + 1).drop_last() =~= orig.subrange(0, j));
        assert(orig.subrange(0, j + 1).last() == orig[j]);
        assert(before[i as int] == orig.subrange(j, n)[0]);
        proof {
            lemma_view(volumes@[i as int]);
        }
        let ghost len = volumes@.len() as int;
        let ghost vs_before = volumes@;
        assert forall|k: int| 0 <= k < n - j implies #[trigger] before[i + k] == orig[j + k] by {
            assert(before.subrange(i as int, len)[k] == orig.subrange(j, n)[k]);
        }
        if str_eq(volumes[i].name.as_str(), name) {
            volumes.remove(i);
            let ghost now = volume_views(volumes@);
            assert(now.subrange(0, i as int) =~= before.subrange(0, i as int));
            assert forall|k: int| 0 <= k < n - j - 1 implies #[trigger] now.subrange(i as int, volumes@.len() as int)[k] == orig.subrange(j + 1, n)[k] by {
                assert(volumes@[i + k] == vs_before[i + (k + 1)]);
                assert(before[i + (k + 1)] == orig[j + (k + 1)]);
            }
            assert(now.subrange(i as int, volumes@.len() as int) =~= orig.subrange(j + 1, n));
        } else {
            assert(volume_views(volumes@).subrange(0, i + 1) =~= before.subrange(0, i as int).push(before[i as int]));
            i = i + 1;
            let ghost now = volume_views(volumes@);
            assert forall|k: int| 0 <= k < n - j - 1 implies #[trigger] now.subrange(i as int, volumes@.len() as int)[k] == orig.subrange(j + 1, n)[k] by {
                assert(before[(i - 1) + (k + 1)] == orig[j + (k + 1)]);
            }
            assert(now.subrange(i as int, volumes@.len() as int) =~= orig.subrange(j + 1, n));
        }
        proof {
            j = j + 1;
        }
    }
    assert(orig.subrange(0, n) =~= orig);
    assert(volume_views(volumes@).subrange(0, i as int) =~= volume_views(volumes@));
}

/// The root volume after relocating the volume at `source` to `destination`,
/// and the answer. A volume relocated under another mother replaces her first
/// daughter named as the destination, keeping its own name, or else is
/// appended to her daughters under the destination name. A volume relocated
/// within its mother is renamed.
pub open spec fn move_spec<S, P, R>(root: VolumeView<S, P, R>, source: Seq<char>, destination: Seq<char>) -> (VolumeView<S, P, R>, Result<(), Fault>) {
    match spec_rsplit_once(source, '.') {
        None => (root, Err(Fault::RelocateRoot(source))),
        Some((src_mother, src_name)) => match spec_rsplit_once(destination, '.') {
            None => (root, Err(Fault::RelocateAsRoot(source))),
            Some((dst_mother, dst_name)) => {
                if dst_name != src_name && name_error(dst_name) is Some {
                    (root, Err(Fault::BadName(dst_name, name_error(dst_name)->0)))
                } else if dst_mother == src_mother {
                    match path_index(root, source) {
                        None => (root, Err(Fault::UnknownVolume(source))),
                        Some(p) => (set_at(root, p, with_name(node_at(root, p), dst_name)), Ok(())),
                    }
                } else if path_index(root, dst_mother) is None {
                    (root, Err(Fault::UnknownVolume(dst_mother)))
                } else {
                    match take_spec(root, src_mother, src_name, source) {
                        (rest, Err(f)) => (rest, Err(f)),
                        (rest, Ok(moved)) => put_spec(rest, dst_mother, dst_name, moved),
                    }
                }
            },
        },
    }
}

/// The root volume after taking out the first daughter named `name` of the
/// volume at `mother`, and that daughter; `source` names her in the error.
pub open spec fn take_spec<S, P, R>(root: VolumeView<S, P, R>, mother: Seq<char>, name: Seq<char>, source: Seq<char>) -> (VolumeView<S, P, R>, Result<VolumeView<S, P, R>, Fault>) {
    match path_index(root, mother) {
        None => (root, Err(Fault::UnknownVolume(mother))),
        Some(p) => {
            let m = node_at(root, p);
            match first_named(m.volumes, name) {
                None => (root, Err(Fault::UnknownVolume(source))),
                Some(k) => (set_at(root, p, with_volumes(m, m.volumes.remove(k))), Ok(m.volumes[k])),
            }
        },
    }
}

/// The daughters `vs` after putting `v` under `name`: `v` replaces the first
/// daughter named `name`, or else is appended, renamed `name`.
pub open spec fn put_volume<S, P, R>(vs: Seq<VolumeView<S, P, R>>, name: Seq<char>, v: VolumeView<S, P, R>) -> Seq<VolumeView<S, P, R>> {
    match first_named(vs, name) {
        Some(j) => vs.update(j, v),
        None => vs.push(with_name(v, name)),
    }
}

/// The root volume after putting `v` under `name` in the volume at `mother`,
/// and the answer.
pub open spec fn put_spec<S, P, R>(root: VolumeView<S, P, R>, mother: Seq<char>, name: Seq<char>, v: VolumeView<S, P, R>) -> (VolumeView<S, P, R>, Result<(), Fault>) {
    match path_index(root, mother) {
        None => (root, Err(Fault::UnknownVolume(mother))),
        Some(p) => {
            let m = node_at(root, p);
            (set_at(root, p, with_volumes(m, put_volume(m.volumes, name, v))), Ok(()))
        },
    }
}

/// The root volume after placing `v` in the volume at `mother`, or in the
/// root volume, and the answer: `v` replaces the first daughter bearing its
/// name, or else is appended.
pub open spec fn place_spec<S, P, R>(root: VolumeView<S, P, R>, v: VolumeView<S, P, R>, mother: Option<Seq<char>>) -> (VolumeView<S, P, R>, Result<(), Fault>) {
    match mother {
        None => (with_volumes(root, put_volume(root.volumes, v.name, v)), Ok(())),
        Some(m) => put_spec(root, m, v.name, v),
    }
}

/// `v` placed at `position` and turned by `rotation`, where given.
pub open spec fn placed<S, P, R>(v: VolumeView<S, P, R>, position: Option<P>, rotation: Option<R>) -> VolumeView<S, P, R> {
    VolumeView {
        position: if position is Some { position } else { v.position },
        rotation: if rotation is Some { rotation } else { v.rotation },
        ..v
    }
}

/// Changes to a volume, each where given.
pub ghost struct Changes<S, P, R> {
    pub material: Option<Seq<char>>,
    pub overlaps: Option<Seq<(Seq<char>, Seq<Seq<char>>)>>,
    pub position: Option<P>,
    pub role: Option<Seq<Seq<char>>>,
    pub rotation: Option<R>,
    pub shape: Option<S>,
    pub subtract: Option<Seq<Seq<char>>>,
}

/// `v` after the changes `c`, made one after the other, and the answer: a
/// refused overlap or role stops the changes, those before it staying made.
pub open spec fn apply_changes<S, P, R>(v: VolumeView<S, P, R>, c: Changes<S, P, R>) -> (VolumeView<S, P, R>, Result<(), Fault>) {
    let v1 = match c.material {
        Some(m) => VolumeView { material: m, ..v },
        None => v,
    };
    let (v2, bad_overlap) = match c.overlaps {
        None => (v1, None),
        Some(entries) => {
            let ps = flat_overlaps(entries);
            match first_fault(v1.volumes, ps) {
                Some(f) => (v1, Some(f)),
                None => (VolumeView { overlaps: overlaps_of(ps), ..v1 }, None),
            }
        },
    };
    if bad_overlap is Some {
        (v2, Err(Fault::BadOverlap(bad_overlap->0)))
    } else {
        let v3 = VolumeView {
            position: if c.position is Some { c.position } else { v2.position },
            rotation: if c.rotation is Some { c.rotation } else { v2.rotation },
            ..v2
        };
        let (v4, bad_role) = match c.role {
            None => (v3, None),
            Some(names) => match parse_roles(names) {
                Err(why) => (v3, Some(why)),
                Ok(roles) => (VolumeView { roles, ..v3 }, None),
            },
        };
        if bad_role is Some {
            (v4, Err(Fault::BadRole(bad_role->0)))
        } else {
            let v5 = VolumeView {
                shape: match c.shape {
                    Some(s) => s,
                    None => v4.shape,
                },
                subtract: match c.subtract {
                    Some(names) => names,
                    None => v4.subtract,
                },
                ..v4
            };
            (v5, Ok(()))
        }
    }
}

/// The root volume after changing the volume at `path` by `c`, and the answer.
pub open spec fn modify_spec<S, P, R>(root: VolumeView<S, P, R>, path: Seq<char>, c: Changes<S, P, R>) -> (VolumeView<S, P, R>, Result<(), Fault>) {
    match path_index(root, path) {
        None => (root, Err(Fault::UnknownVolume(path))),
        Some(p) => {
            let (n, r) = apply_changes(node_at(root, p), c);
            (set_at(root, p, n), r)
        },
    }
}

/// An optional string, by its view.
pub open spec fn opt_string(s: Option<String>) -> Option<Seq<char>> {
    match s {
        Some(s) => Some(s@),
        None => None,
    }
}

/// Optional strings, by their views.
pub open spec fn opt_strings(s: Option<Vec<String>>) -> Option<Seq<Seq<char>>> {
    match s {
        Some(s) => Some(string_views(s@)),
        None => None,
    }
}

/// Optional overlap entries, by their views.
pub open spec fn opt_entries(s: Option<Vec<(String, Vec<String>)>>) -> Option<Seq<(Seq<char>, Seq<Seq<char>>)>> {
    match s {
        Some(s) => Some(entry_views(s@)),
        None => None,
    }
}

/// A root volume, with the material definitions given along with it.
pub struct GeometryDefinition<S, P, R, E, Mo, Mx> {
    pub volume: volume::Volume<S, P, R>,
    pub materials: Option<MaterialsDefinition<E, Mo, Mx>>,
}

/// Why a geometry definition is refused.
pub enum GeometryError {
    /// It defines another number of root volumes than one.
    RootCount(usize),
    /// Its root volume is refused.
    Volume(DefinitionError),
}

/// The text explaining why a geometry defining `n` root volumes is refused.
pub open spec fn root_count_text(n: nat) -> Seq<char> {
    "expected 1 root volume, found "@ + decimal_text(n)
}

impl GeometryError {
    /// Why a geometry with a wrong number of root volumes is refused, if it
    /// is for that.
    pub fn why(&self) -> (r: Option<String>)
        ensures
            match self {
                GeometryError::RootCount(n) => r matches Some(t) && t@ == root_count_text(*n as nat),
                GeometryError::Volume(_) => r is None,
            },
    {
        match self {
            GeometryError::RootCount(n) => {
                let mut text = String::from_str("expected 1 root volume, found ");
                let d = decimal(*n as u64);
                text.append(d.as_str());
                Some(text)
            },
            GeometryError::Volume(_) => None,
        }
    }
}

impl<S, P, R, E, Mo, Mx> GeometryDefinition<S, P, R, E, Mo, Mx> {
    /// The geometry defined by its root volumes, of which there must be one,
    /// and its materials.
    pub fn new(
        roots: Vec<(String, VolumeDefinition<S, P, R>)>,
        materials: Option<MaterialsDefinition<E, Mo, Mx>>,
    ) -> (r: Result<Self, GeometryError>)
        ensures
            match r {
                Ok(g) => roots@.len() == 1
                    && assemble_spec(roots@[0].0@, roots@[0].1) == Ok::<VolumeView<S, P, R>, DefinitionFault>(g.volume@)
                    && g.materials == materials,
                Err(GeometryError::RootCount(n)) => roots@.len() != 1 && n == roots@.len(),
                Err(GeometryError::Volume(e)) => roots@.len() == 1
                    && assemble_spec(roots@[0].0@, roots@[0].1) == Err::<VolumeView<S, P, R>, DefinitionFault>(e@),
            },
    {
        let mut roots = roots;
        if roots.len() != 1 {
            return Err(GeometryError::RootCount(roots.len()));
        }
        let (name, definition) = roots.remove(0);
        match assemble_volume(name, definition) {
            Ok(volume) => Ok(GeometryDefinition { volume, materials }),
            Err(e) => Err(GeometryError::Volume(e)),
        }
    }
}

/// A geometry being defined: a tree of volumes, edited by the dotted path
/// names of its volumes (`Root.Daughter.GrandDaughter`), and material
/// definitions.
pub struct GeometryBuilder<S, P, R, E, Mo, Mx> {
    pub volume: volume::Volume<S, P, R>,
    pub materials: Option<MaterialsDefinition<E, Mo, Mx>>,
    /// Traversal algorithm for tessellated shapes.
    pub algorithm: Algorithm,
}

impl<S, P, R, E, Mo, Mx> GeometryBuilder<S, P, R, E, Mo, Mx> {
    /// A builder for the given geometry definition.
    pub fn new(definition: GeometryDefinition<S, P, R, E, Mo, Mx>) -> (r: Self)
        ensures
            r.volume == definition.volume,
            r.materials == definition.materials,
            r.algorithm == Algorithm::Bvh,
    {
        GeometryBuilder {
            volume: definition.volume,
            materials: definition.materials,
            algorithm: Algorithm::default(),
        }
    }

    /// Whether a volume stands at `path`.
    pub fn contains(&self, path: &str) -> (r: bool)
        ensures
            r == path_index(self.volume@, path@) is Some,
    {
        find_path(&self.volume, path).is_some()
    }

    /// The volume at `path`.
    pub fn find_mut<'a>(&'a mut self, path: &str) -> (r: Result<&'a mut volume::Volume<S, P, R>, BuilderError>)
        ensures
            match r {
                Ok(v) => path_index(old(self).volume@, path@) matches Some(p)
                    && v@ == node_at(old(self).volume@, p)
                    && final(self).volume@ == set_at(old(self).volume@, p, final(v)@)
                    && final(self).algorithm == old(self).algorithm
                    && final(self).materials == old(self).materials,
                Err(e) => path_index(old(self).volume@, path@) is None
                    && e@ == Fault::UnknownVolume(path@)
                    && *final(self) == *old(self),
            },
    {
        match find_path(&self.volume, path) {
            None => Err(BuilderError::UnknownVolume(to_owned(path))),
            Some(p) => {
                proof {
                    volume::lemma_path_index_valid(self.volume@, path@);
                    assert(usize_path(p@).skip(0) =~= usize_path(p@));
                }
                Ok(node_mut(&mut self.volume, &p, 0))
            },
        }
    }

    /// Removes the volume at `path`, that is every daughter of its mother
    /// bearing its name.
    pub fn delete(&mut self, path: &str) -> (r: Result<(), BuilderError>)
        ensures
            (final(self).volume@, outcome_view(r)) == delete_spec(old(self).volume@, path@),
            final(self).algorithm == old(self).algorithm,
            final(self).materials == old(self).materials,
    {
        if let Some((mother, name)) = rsplit_once(path, '.') {
            match self.find_mut(mother) {
                Err(e) => return Err(e),
                Ok(m) => {
                    let n = m.volumes.len();
                    let ghost before = *m;
                    proof {
                        lemma_view(before);
                        lemma_drop_named_len(volume_views(before.volumes@), name@);
                    }
                    retain_unnamed(&mut m.volumes, name);
                    proof {
                        lemma_view(*m);
                        assert(m@ == with_volumes(before@, drop_named(before@.volumes, name@)));
                    }
                    if m.volumes.len() < n {
                        return Ok(());
                    }
                },
            }
        }
        proof {
            lemma_view(self.volume);
            if let Some((mother, name)) = spec_rsplit_once(path@, '.') {
                volume::lemma_path_index_valid(old(self).volume@, mother);
                if let Some(p) = path_index(old(self).volume@, mother) {
                    volume::lemma_set_at_same(old(self).volume@, p);
                }
            }
        }
        if str_eq(self.volume.name.as_str(), path) {
            Err(BuilderError::DeleteRoot(to_owned(path)))
        } else {
            Err(BuilderError::UnknownVolume(to_owned(path)))
        }
    }

    /// Takes out the first daughter named `name` of the volume at `mother`.
    fn take_daughter(&mut self, mother: &str, name: &str, source: &str) -> (r: Result<volume::Volume<S, P, R>, BuilderError>)
        ensures
            final(self).algorithm == old(self).algorithm,
            final(self).materials == old(self).materials,
            match (take_spec(old(self).volume@, mother@, name@, source@), r) {
                ((root, Ok(v)), Ok(u)) => final(self).volume@ == root && u@ == v,
                ((root, Err(f)), Err(e)) => final(self).volume@ == root && e@ == f,
                _ => false,
            },
    {
        broadcast use volume::lemma_view, volume::lemma_views_remove;
        let m = self.find_mut(mother)?;
        match child_position(&m.volumes, name) {
            None => {
                proof {
                    volume::lemma_path_index_valid(old(self).volume@, mother@);
                    volume::lemma_set_at_same(old(self).volume@, path_index(old(self).volume@, mother@)->0);
                }
                Err(BuilderError::UnknownVolume(to_owned(source)))
            },
            Some(k) => Ok(m.volumes.remove(k)),
        }
    }

    /// Puts `v` under `name` in the volume at `mother`.
    fn put_daughter(&mut self, mother: &str, name: &str, v: volume::Volume<S, P, R>) -> (r: Result<(), BuilderError>)
        ensures
            final(self).algorithm == old(self).algorithm,
            final(self).materials == old(self).materials,
            (final(self).volume@, outcome_view(r)) == put_spec(old(self).volume@, mother@, name@, v@),
    {
        broadcast use volume::lemma_view, volume::lemma_views_push, volume::lemma_views_update;
        let mut v = v;
        let m = self.find_mut(mother)?;
        match child_position(&m.volumes, name) {
            Some(j) => {
                m.volumes.set(j, v);
            },
            None => {
                v.name = to_owned(name);
                m.volumes.push(v);
            },
        }
        Ok(())
    }

    /// Relocates the volume at `source` to `destination`.
    pub fn move_volume(&mut self, source: &str, destination: &str) -> (r: Result<(), BuilderError>)
        ensures
            (final(self).volume@, outcome_view(r)) == move_spec(old(self).volume@, source@, destination@),
            final(self).algorithm == old(self).algorithm,
            final(self).materials == old(self).materials,
            match (spec_rsplit_once(source@, '.'), spec_rsplit_once(destination@, '.')) {
                (Some((_, sn)), Some((_, dn))) => dn != sn && is_ascii(dn) ==> name_error(dn) == ascii_name_error(dn),
                _ => true,
            },
    {
        let (src_mother, src_name) = match rsplit_once(source, '.') {
            None => return Err(BuilderError::RelocateRoot(to_owned(source))),
            Some(split) => split,
        };
        let (dst_mother, dst_name) = match rsplit_once(destination, '.') {
            None => return Err(BuilderError::RelocateAsRoot(to_owned(source))),
            Some(split) => split,
        };
        if !str_eq(dst_name, src_name) {
            if let Err(e) = check(dst_name) {
                return Err(BuilderError::BadName(to_owned(dst_name), e));
            }
        }
        if str_eq(dst_mother, src_mother) {
            let v = self.find_mut(source)?;
            proof {
                lemma_view(*v);
            }
            v.name = to_owned(dst_name);
            proof {
                lemma_view(*v);
            }
            return Ok(());
        }
        if !self.contains(dst_mother) {
            return Err(BuilderError::UnknownVolume(to_owned(dst_mother)));
        }
        let moved = self.take_daughter(src_mother, src_name, source)?;
        self.put_daughter(dst_mother, dst_name, moved)
    }

    /// Places the volume of `definition` in the volume at `mother`, or in the
    /// root volume, at `position` and turned by `rotation` where given; its
    /// material definitions join those of the builder.
    pub fn place(
        &mut self,
        definition: GeometryDefinition<S, P, R, E, Mo, Mx>,
        mother: Option<&str>,
        position: Option<P>,
        rotation: Option<R>,
    ) -> (r: Result<(), BuilderError>)
        ensures
            ({
                let v = placed(definition.volume@, position, rotation);
                let m = match mother {
                    None => None,
                    Some(m) => Some(m@),
                };
                (final(self).volume@, outcome_view(r)) == place_spec(old(self).volume@, v, m)
            }),
            final(self).algorithm == old(self).algorithm,
            opt_view(final(self).materials) == match (r, definition.materials) {
                (Ok(()), Some(m)) => Some(merge(opt_view(old(self).materials), m@)),
                _ => opt_view(old(self).materials),
            },
    {
        broadcast use volume::lemma_view, volume::lemma_views_push, volume::lemma_views_update;
        let GeometryDefinition { volume, materials } = definition;
        let mut volume = volume;
        if let Some(position) = position {
            volume.position = Some(position);
        }
        if let Some(rotation) = rotation {
            volume.rotation = Some(rotation);
        }
        match mother {
            None => {
                let m = &mut self.volume;
                match child_position(&m.volumes, volume.name.as_str()) {
                    Some(j) => {
                        m.volumes.set(j, volume);
                    },
                    None => {
                        m.volumes.push(volume);
                    },
                }
            },
            Some(mother) => {
                let name = volume.name.clone();
                self.put_daughter(mother, name.as_str(), volume)?;
            },
        }
        if let Some(materials) = materials {
            match &mut self.materials {
                None => self.materials = Some(materials),
                Some(m) => m.extend(materials),
            }
        }
        Ok(())
    }

    /// Changes the definition of the volume at `path`: each property given
    /// replaces the volume's one, in the order of the parameters. Overlaps
    /// name daughters of the volume, each a left one with right ones.
    pub fn modify(
        &mut self,
        path: &str,
        material: Option<String>,
        overlaps: Option<Vec<(String, Vec<String>)>>,
        position: Option<P>,
        role: Option<Vec<String>>,
        rotation: Option<R>,
        shape: Option<S>,
        subtract: Option<Vec<String>>,
    ) -> (r: Result<(), BuilderError>)
        ensures
            ({
                let c = Changes {
                    material: opt_string(material),
                    overlaps: opt_entries(overlaps),
                    position,
                    role: opt_strings(role),
                    rotation,
                    shape,
                    subtract: opt_strings(subtract),
                };
                (final(self).volume@, outcome_view(r)) == modify_spec(old(self).volume@, path@, c)
            }),
            final(self).algorithm == old(self).algorithm,
            final(self).materials == old(self).materials,
    {
        broadcast use volume::lemma_view;
        let v = self.find_mut(path)?;
        if let Some(material) = material {
            v.material = material;
        }
        if let Some(overlaps) = overlaps {
            match flatten_overlaps(&overlaps, &v.volumes) {
                Ok(flat) => {
                    v.overlaps = flat;
                },
                Err(e) => return Err(BuilderError::BadOverlap(e)),
            }
        }
        if let Some(position) = position {
            v.position = Some(position);
        }
        if let Some(rotation) = rotation {
            v.rotation = Some(rotation);
        }
        if let Some(role) = role {
            match Roles::try_from(role.as_slice()) {
                Ok(roles) => {
                    v.roles = roles;
                },
                Err(why) => return Err(BuilderError::BadRole(why)),
            }
        }
        if let Some(shape) = shape {
            v.shape = shape;
        }
        if let Some(subtract) = subtract {
            v.subtract = subtract;
        }
        Ok(())
    }
}

} // verus!

verus! {

proof fn lemma_drop_named_gone<S, P, R>(vs: Seq<VolumeView<S, P, R>>, name: Seq<char>)
    ensures
        forall|i: int| 0 <= i < drop_named(vs, name).len() ==> (#[trigger] drop_named(vs, name)[i]).name != name,
    decreases vs.len(),
{
    if vs.len() > 0 {
        lemma_drop_named_gone(vs.drop_last(), name);
    }
}

/// Putting `v` under its own name, or under a name none bears, finds it
/// there first.
proof fn lemma_put_volume_found<S, P, R>(vs: Seq<VolumeView<S, P, R>>, name: Seq<char>, v: VolumeView<S, P, R>)
    requires
        v.name == name || first_named(vs, name) is None,
    ensures
        first_named(put_volume(vs, name, v), name) matches Some(j)
            && put_volume(vs, name, v)[j] == with_name(v, name),
{
    lemma_first_named(vs, name);
    let ws = put_volume(vs, name, v);
    match first_named(vs, name) {
        Some(j) => {
            assert(with_name(v, name) == v);
            assert forall|i: int| 0 <= i < vs.len() implies (#[trigger] vs[i]).name == ws[i].name by {
            }
            lemma_first_named_same(vs, ws, name);
        },
        None => {
            lemma_first_named(ws, name);
            assert(ws[vs.len() as int].name == name);
            if let Some(j) = first_named(ws, name) {
                if j < vs.len() {
                    assert(ws[j] == vs[j]);
                }
            }
        },
    }
}

/// Once the volume at `path` is deleted, no volume stands at `path`.
pub proof fn law_delete_removes<S, P, R>(root: VolumeView<S, P, R>, path: Seq<char>)
    requires
        delete_spec(root, path).1 is Ok,
    ensures
        path_index(delete_spec(root, path).0, path) is None,
{
    lemma_rsplit_once(path, '.');
    let (mother, name) = spec_rsplit_once(path, '.')->0;
    let p = path_index(root, mother)->0;
    let m = node_at(root, p);
    let n = with_volumes(m, drop_named(m.volumes, name));
    let after = set_at(root, p, n);
    volume::lemma_path_index_valid(root, mother);
    volume::lemma_path_index_set(root, mother, p, n);
    volume::lemma_node_set(root, p, n);
    volume::lemma_path_index_child(after, mother, name);
    lemma_drop_named_gone(m.volumes, name);
    lemma_first_named(n.volumes, name);
}

/// Once a volume is placed, it stands first under its name in its mother.
pub proof fn law_place_finds<S, P, R>(root: VolumeView<S, P, R>, v: VolumeView<S, P, R>, mother: Option<Seq<char>>)
    requires
        place_spec(root, v, mother).1 is Ok,
        !v.name.contains('.'),
        mother is None ==> !root.name.contains('.'),
    ensures
        ({
            let m = match mother {
                Some(m) => m,
                None => root.name,
            };
            let after = place_spec(root, v, mother).0;
            path_index(after, m + seq!['.'] + v.name) matches Some(q) && node_at(after, q) == v
        }),
{
    let m = match mother {
        Some(m) => m,
        None => root.name,
    };
    if mother is None {
        volume::lemma_path_index_root(root);
    }
    let p = path_index(root, m)->0;
    let node = node_at(root, p);
    let n = with_volumes(node, put_volume(node.volumes, v.name, v));
    let after = set_at(root, p, n);
    assert(place_spec(root, v, mother).0 == after);
    volume::lemma_path_index_valid(root, m);
    volume::lemma_path_index_set(root, m, p, n);
    volume::lemma_node_set(root, p, n);
    volume::lemma_path_index_child(after, m, v.name);
    lemma_put_volume_found(node.volumes, v.name, v);
    lemma_first_named(n.volumes, v.name);
    let j = first_named(n.volumes, v.name)->0;
    let q = p.push(j);
    volume::lemma_node_push(after, p, j);
}

/// Once a volume is relocated within its mother, the destination leads to
/// it, renamed, where no other daughter of its mother bears the new name.
pub proof fn law_rename_finds<S, P, R>(root: VolumeView<S, P, R>, source: Seq<char>, destination: Seq<char>)
    requires
        move_spec(root, source, destination).1 is Ok,
        spec_rsplit_once(source, '.') matches Some((sm, sn))
            && spec_rsplit_once(destination, '.') matches Some((dm, dn))
            && dm == sm
            && (dn == sn || first_named(node_at(root, path_index(root, sm)->0).volumes, dn) is None),
    ensures
        ({
            let split = spec_rsplit_once(destination, '.')->0;
            let after = move_spec(root, source, destination).0;
            path_index(root, source) matches Some(p)
                && path_index(after, destination) == Some(p)
                && node_at(after, p) == with_name(node_at(root, p), split.1)
        }),
{
    lemma_rsplit_once(source, '.');
    lemma_rsplit_once(destination, '.');
    let (sm, sn) = spec_rsplit_once(source, '.')->0;
    let (dm, dn) = spec_rsplit_once(destination, '.')->0;
    let p = path_index(root, source)->0;
    volume::lemma_path_index_child(root, sm, sn);
    volume::lemma_path_index_valid(root, sm);
    let pm = path_index(root, sm)->0;
    let m = node_at(root, pm);
    lemma_first_named(m.volumes, sn);
    let k = first_named(m.volumes, sn)->0;
    assert(p == pm.push(k));
    volume::lemma_node_push(root, pm, k);
    let x = with_name(m.volumes[k], dn);
    let n = with_volumes(m, m.volumes.update(k, x));
    volume::lemma_set_at_push(root, pm, k, x);
    let after = set_at(root, pm, n);
    assert(move_spec(root, source, destination).0 == after);
    volume::lemma_path_index_set(root, sm, pm, n);
    volume::lemma_node_set(root, pm, n);
    volume::lemma_path_index_child(after, sm, dn);
    lemma_first_named(n.volumes, dn);
    if dn == sn {
        assert forall|i: int| 0 <= i < m.volumes.len() implies (#[trigger] m.volumes[i]).name == n.volumes[i].name by {
        }
        volume::lemma_first_named_same(m.volumes, n.volumes, dn);
    } else {
        assert(n.volumes[k].name == dn);
        if let Some(j) = first_named(n.volumes, dn) {
            if j != k {
                assert(m.volumes[j].name == dn);
                lemma_first_named(m.volumes, dn);
            }
        }
    }
    volume::lemma_node_push(after, pm, k);
}

/// Once a volume is relocated under another mother, the destination leads to
/// it, renamed, where that mother, once the volume is taken out, has no
/// other daughter bearing the new name.
pub proof fn law_relocate_finds<S, P, R>(root: VolumeView<S, P, R>, source: Seq<char>, destination: Seq<char>)
    requires
        move_spec(root, source, destination).1 is Ok,
        spec_rsplit_once(source, '.') matches Some((sm, sn))
            && spec_rsplit_once(destination, '.') matches Some((dm, dn))
            && dm != sm
            && (dn == sn || first_named(
                node_at(take_spec(root, sm, sn, source).0, path_index(take_spec(root, sm, sn, source).0, dm)->0).volumes,
                dn,
            ) is None),
    ensures
        ({
            let split = spec_rsplit_once(destination, '.')->0;
            let after = move_spec(root, source, destination).0;
            path_index(root, source) matches Some(p)
                && path_index(after, destination) matches Some(q)
                && node_at(after, q) == with_name(node_at(root, p), split.1)
        }),
{
    lemma_rsplit_once(source, '.');
    lemma_rsplit_once(destination, '.');
    let (sm, sn) = spec_rsplit_once(source, '.')->0;
    let (dm, dn) = spec_rsplit_once(destination, '.')->0;
    volume::lemma_path_index_child(root, sm, sn);
    volume::lemma_path_index_valid(root, sm);
    let pm = path_index(root, sm)->0;
    let m = node_at(root, pm);
    lemma_first_named(m.volumes, sn);
    let k = first_named(m.volumes, sn)->0;
    volume::lemma_node_push(root, pm, k);
    let moved = m.volumes[k];
    let rest = take_spec(root, sm, sn, source).0;
    let pd = path_index(rest, dm)->0;
    volume::lemma_path_index_valid(rest, dm);
    let nd = node_at(rest, pd);
    let n = with_volumes(nd, put_volume(nd.volumes, dn, moved));
    let after = set_at(rest, pd, n);
    assert(move_spec(root, source, destination).0 == after);
    volume::lemma_path_index_set(rest, dm, pd, n);
    volume::lemma_node_set(rest, pd, n);
    volume::lemma_path_index_child(after, dm, dn);
    lemma_put_volume_found(nd.volumes, dn, moved);
    lemma_first_named(n.volumes, dn);
    let j = first_named(n.volumes, dn)->0;
    volume::lemma_node_push(after, pd, j);
}

/// Changing a volume changes no path: every path leads where it led.
pub proof fn law_modify_keeps_paths<S, P, R>(root: VolumeView<S, P, R>, path: Seq<char>, c: Changes<S, P, R>, other: Seq<char>)
    ensures
        path_index(modify_spec(root, path, c).0, other) == path_index(root, other),
{
    if let Some(p) = path_index(root, path) {
        let (n, r) = apply_changes(node_at(root, p), c);
        volume::lemma_path_index_valid(root, path);
        let names = spec_split(other, '.');
        volume::lemma_descend_same_shape(root, p, n, names.drop_first());
        if p.len() > 0 {
            volume::lemma_node_set(root, p, n);
        }
    }
}

/// A change that succeeds leaves the volume at `path` with every property
/// that was given: its material, overlaps, position, roles, rotation, shape
/// and subtracted volumes; what was not given, and its name and daughters,
/// stay as they were.
pub proof fn law_modify_sets<S, P, R>(root: VolumeView<S, P, R>, path: Seq<char>, c: Changes<S, P, R>)
    requires
        modify_spec(root, path, c).1 is Ok,
    ensures
        path_index(root, path) is Some,
        ({
            let p = path_index(root, path)->0;
            let before = node_at(root, p);
            let after = node_at(modify_spec(root, path, c).0, p);
            &&& after.name == before.name
            &&& after.volumes == before.volumes
            &&& after.material == (if c.material is Some { c.material->0 } else { before.material })
            &&& after.overlaps == (if c.overlaps is Some { overlaps_of(flat_overlaps(c.overlaps->0)) } else { before.overlaps })
            &&& after.position == (if c.position is Some { c.position } else { before.position })
            &&& (if c.role is Some { parse_roles(c.role->0) == Ok::<Roles, Seq<char>>(after.roles) } else { after.roles == before.roles })
            &&& after.rotation == (if c.rotation is Some { c.rotation } else { before.rotation })
            &&& after.shape == (if c.shape is Some { c.shape->0 } else { before.shape })
            &&& after.subtract == (if c.subtract is Some { c.subtract->0 } else { before.subtract })
        }),
{
    let p = path_index(root, path)->0;
    volume::lemma_path_index_valid(root, path);
    let (n, r) = apply_changes(node_at(root, p), c);
    volume::lemma_node_set(root, p, n);
}

} // verus!

verus! {

/// What can be computed of a volume's solid.
#[derive(Clone, Copy, PartialEq, Eq, Structural, Debug)]
pub struct SolidProperties {
    pub has_cubic_volume: bool,
    pub has_exclusive_volume: bool,
    pub has_surface_area: bool,
    pub has_surface_generation: bool,
}

impl SolidProperties {
    pub fn everything() -> (r: Self)
        ensures
            r == (SolidProperties {
                has_cubic_volume: true,
                has_exclusive_volume: true,
                has_surface_area: true,
                has_surface_generation: true,
            }),
    {
        Self {
            has_cubic_volume: true,
            has_exclusive_volume: true,
            has_surface_area: true,
            has_surface_generation: true,
        }
    }

    pub fn nothing() -> (r: Self)
        ensures
            r == (SolidProperties {
                has_cubic_volume: false,
                has_exclusive_volume: false,
                has_surface_area: false,
                has_surface_generation: false,
            }),
    {
        Self {
            has_cubic_volume: false,
            has_exclusive_volume: false,
            has_surface_area: false,
            has_surface_generation: false,
        }
    }
}

/// What can be computed of the engine solid named `solid`.
pub open spec fn solid_properties(solid: Seq<char>) -> SolidProperties {
    if solid == "G4Box"@ || solid == "G4DisplacedSolid"@ || solid == "G4Orb"@ || solid == "G4Sphere"@
        || solid == "G4Tubs"@ {
        SolidProperties {
            has_cubic_volume: true,
            has_exclusive_volume: true,
            has_surface_area: true,
            has_surface_generation: true,
        }
    } else if solid == "Tessellation"@ {
        SolidProperties {
            has_cubic_volume: false,
            has_exclusive_volume: false,
            has_surface_area: true,
            has_surface_generation: true,
        }
    } else if solid == "G4TessellatedSolid"@ {
        SolidProperties {
            has_cubic_volume: false,
            has_exclusive_volume: false,
            has_surface_area: true,
            has_surface_generation: false,
        }
    } else {
        SolidProperties {
            has_cubic_volume: false,
            has_exclusive_volume: false,
            has_surface_area: false,
            has_surface_generation: false,
        }
    }
}

fn get_properties(solid: &str) -> (r: SolidProperties)
    ensures
        r == solid_properties(solid@),
{
    if str_eq(solid, "G4Box") || str_eq(solid, "G4DisplacedSolid") || str_eq(solid, "G4Orb")
        || str_eq(solid, "G4Sphere") || str_eq(solid, "G4Tubs") {
        SolidProperties::everything()
    } else if str_eq(solid, "Tessellation") {
        SolidProperties {
            has_cubic_volume: false,
            has_exclusive_volume: false,
            has_surface_area: true,
            has_surface_generation: true,
        }
    } else if str_eq(solid, "G4TessellatedSolid") {
        SolidProperties {
            has_cubic_volume: false,
            has_exclusive_volume: false,
            has_surface_area: true,
            has_surface_generation: false,
        }
    } else {
        SolidProperties::nothing()
    }
}

/// The properties of a volume made of `solid`, with daughters made of
/// `daughters`: its volume is exclusive of its daughters' only where all of
/// theirs can be computed.
pub open spec fn volume_properties(solid: Seq<char>, daughters: Seq<Seq<char>>) -> SolidProperties {
    let p = solid_properties(solid);
    SolidProperties {
        has_exclusive_volume: p.has_cubic_volume
            && forall|i: int| 0 <= i < daughters.len() ==> (#[trigger] solid_properties(daughters[i])).has_cubic_volume,
        ..p
    }
}

/// The solids of daughters.
pub open spec fn daughter_solids(ds: Seq<DaughterInfo>) -> Seq<Seq<char>> {
    ds.map_values(|d: DaughterInfo| d.solid@)
}

/// The paths of daughters.
pub open spec fn daughter_paths(ds: Seq<DaughterInfo>) -> Seq<Seq<char>> {
    ds.map_values(|d: DaughterInfo| d.path@)
}

/// A volume of a built geometry, as described by the engine.
pub struct Volume {
    /// The volume absolute pathname.
    pub path: String,
    /// The volume constitutive material.
    pub material: String,
    /// The volume shape, according to the engine.
    pub solid: String,
    /// The mother of this volume, if any.
    pub mother: Option<String>,
    /// The absolute pathnames of the daughter volumes.
    pub daughters: Vec<String>,
    pub properties: SolidProperties,
}

/// Why a quantity of a volume cannot be computed.
pub enum VolumeError {
    /// Not computed for this solid.
    Solid(String),
    /// Not computed for a volume with such daughters.
    Daughters,
}

/// The text explaining a volume error about `solid`, if any.
pub open spec fn volume_error_text(solid: Option<Seq<char>>) -> Seq<char> {
    match solid {
        Some(s) => "not implemented for '"@ + s + "'"@,
        None => "not implemented for daughter volume(s)"@,
    }
}

impl VolumeError {
    /// The text explaining this error.
    pub fn why(&self) -> (r: String)
        ensures
            r@ == volume_error_text(match self {
                VolumeError::Solid(s) => Some(s@),
                VolumeError::Daughters => None,
            }),
    {
        match self {
            VolumeError::Solid(s) => {
                let mut text = to_owned("not implemented for '");
                text.append(s.as_str());
                text.append("'");
                text
            },
            VolumeError::Daughters => to_owned("not implemented for daughter volume(s)"),
        }
    }
}

/// The snake case of `s`, as `convert_case` writes it.
pub uninterp spec fn snake_case(s: Seq<char>) -> Seq<char>;

/// `Casing::to_case` of `convert_case`, into `Case::Snake`: the snake case of
/// `s`, named only.
#[verifier::external_body]
fn to_snake_case(s: &str) -> (r: String)
    ensures
        r@ == snake_case(s@),
{
    s.to_case(Case::Snake)
}

impl Volume {
    /// The volume described by `info`.
    pub fn new(info: VolumeInfo) -> (r: Volume)
        ensures
            r.path@ == info.path@,
            r.material@ == info.material@,
            r.solid@ == info.solid@,
            opt_string(r.mother) == if info.mother@.len() == 0 { None } else { Some(info.mother@) },
            string_views(r.daughters@) == daughter_paths(info.daughters@),
            r.properties == volume_properties(info.solid@, daughter_solids(info.daughters@)),
    {
        let VolumeInfo { path, material, solid, mother, daughters } = info;
        let mother = if mother.unicode_len() == 0 {
            None
        } else {
            Some(mother)
        };
        let mut properties = get_properties(solid.as_str());
        let ghost solids = daughter_solids(daughters@);
        let mut exclusive = properties.has_cubic_volume;
        let mut paths: Vec<String> = Vec::new();
        let mut i: usize = 0;
        while i < daughters.len()
            invariant
                0 <= i <= daughters@.len(),
                solids == daughter_solids(daughters@),
                exclusive == (properties.has_cubic_volume
                    && forall|k: int| 0 <= k < i ==> (#[trigger] solid_properties(solids[k])).has_cubic_volume),
                string_views(paths@) == daughter_paths(daughters@).subrange(0, i as int),
            decreases daughters@.len() - i,
        {
            let d = get_properties(daughters[i].solid.as_str());
            assert(solids[i as int] == daughters@[i as int].solid@);
            exclusive = exclusive && d.has_cubic_volume;
            let path = daughters[i].path.clone();
            assert(daughter_paths(daughters@)[i as int] == path@);
            let ghost before = paths@;
            paths.push(path);
            assert(paths@ == before.push(path));
            assert(string_views(paths@) =~= string_views(before).push(path@));
            assert(daughter_paths(daughters@).subrange(0, i + 1) =~= daughter_paths(daughters@).subrange(0, i as int).push(path@));
            assert(string_views(paths@) =~= daughter_paths(daughters@).subrange(0, i + 1));
            i = i + 1;
        }
        assert(daughter_paths(daughters@).subrange(0, i as int) =~= daughter_paths(daughters@));
        properties.has_exclusive_volume = exclusive;
        Volume { path, material, solid, mother, daughters: paths, properties }
    }

    /// The volume name, the last part of its path.
    pub fn get_name(&self) -> (r: &str)
        ensures
            r@ == match spec_rsplit_once(self.path@, '.') {
                Some((_, name)) => name,
                None => self.path@,
            },
    {
        match rsplit_once(self.path.as_str(), '.') {
            None => self.path.as_str(),
            Some((_, name)) => name,
        }
    }

    /// The file this volume is dumped to: `path`, or else the volume's name
    /// in snake case, with the `gdml` extension.
    pub fn dump_path(&self, path: Option<String>) -> (r: String)
        ensures
            r@ == match path {
                Some(p) => p@,
                None => snake_case(match spec_rsplit_once(self.path@, '.') {
                    Some((_, name)) => name,
                    None => self.path@,
                }) + ".gdml"@,
            },
    {
        match path {
            Some(p) => p,
            None => {
                let mut name = to_snake_case(self.get_name());
                name.append(".gdml");
                name
            },
        }
    }

    /// Checks that the surface area of this volume can be computed.
    pub fn check_surface_area(&self) -> (r: Result<(), VolumeError>)
        ensures
            match r {
                Ok(()) => self.properties.has_surface_area,
                Err(e) => !self.properties.has_surface_area
                    && (e matches VolumeError::Solid(s) && s@ == self.solid@),
            },
    {
        if self.properties.has_surface_area {
            Ok(())
        } else {
            Err(VolumeError::Solid(self.solid.clone()))
        }
    }

    /// Checks that the cubic volume of this volume, with or without its
    /// daughters (by default, without), can be computed; gives whether the
    /// daughters are included.
    pub fn check_volume(&self, include_daughters: Option<bool>) -> (r: Result<bool, VolumeError>)
        ensures
            ({
                let with_daughters = match include_daughters {
                    Some(b) => b,
                    None => false,
                };
                match r {
                    Ok(b) => b == with_daughters && self.properties.has_cubic_volume
                        && (with_daughters || self.properties.has_exclusive_volume),
                    Err(VolumeError::Solid(s)) => !self.properties.has_cubic_volume && s@ == self.solid@,
                    Err(VolumeError::Daughters) => self.properties.has_cubic_volume && !with_daughters
                        && !self.properties.has_exclusive_volume,
                }
            }),
    {
        if !self.properties.has_cubic_volume {
            return Err(VolumeError::Solid(self.solid.clone()));
        }
        let with_daughters = match include_daughters {
            Some(b) => b,
            None => false,
        };
        if !with_daughters && !self.properties.has_exclusive_volume {
            return Err(VolumeError::Daughters);
        }
        Ok(with_daughters)
    }
}

} // verus!
