//! Tags locating the object being read from a configuration, the error
//! messages built from them, and the rules by which the keys of a dictionary
//! are read as properties.
use crate::utils::text::{str_eq, to_owned};
use vstd::prelude::*;
use vstd::string::*;

verus! {

/// The type, the name and the dotted path of the object being read, and the
/// file it is read from, if any.
pub struct Tag {
    typename: String,
    name: String,
    path: String,
    file: Option<String>,
}

/// Mathematical view of a `Tag`.
pub ghost struct TagView {
    pub typename: Seq<char>,
    pub name: Seq<char>,
    pub path: Seq<char>,
    pub file: Option<Seq<char>>,
}

/// An optional string, by its view.
pub open spec fn opt_view(s: Option<String>) -> Option<Seq<char>> {
    match s {
        Some(s) => Some(s@),
        None => None,
    }
}

/// An optional string slice, by its view.
pub open spec fn opt_str_view(s: Option<&str>) -> Option<Seq<char>> {
    match s {
        Some(s) => Some(s@),
        None => None,
    }
}

impl View for Tag {
    type V = TagView;

    closed spec fn view(&self) -> TagView {
        TagView { typename: self.typename@, name: self.name@, path: self.path@, file: opt_view(self.file) }
    }
}

/// The prefix naming the file of a tag in messages.
pub open spec fn file_prefix_text(file: Option<Seq<char>>) -> Seq<char> {
    match file {
        None => Seq::empty(),
        Some(f) => f + ": "@,
    }
}

/// The message telling that the tagged object is bad, for `what`, and why.
pub open spec fn bad_text(tag: TagView, what: Option<Seq<char>>, why: Option<Seq<char>>) -> Seq<char> {
    let t = if tag.path.len() == 0 {
        tag.typename
    } else {
        "'"@ + tag.path + "' "@ + tag.typename
    };
    let head = file_prefix_text(tag.file) + "bad "@;
    match (what, why) {
        (None, None) => head + t,
        (None, Some(y)) => head + t + " ("@ + y + ")"@,
        (Some(w), None) => head + w + " for "@ + t,
        (Some(w), Some(y)) => head + w + " for "@ + t + " ("@ + y + ")"@,
    }
}

fn copy_opt(s: Option<&str>) -> (r: Option<String>)
    ensures
        opt_view(r) == opt_str_view(s),
{
    match s {
        None => None,
        Some(s) => Some(to_owned(s)),
    }
}

impl Tag {
    /// A tag of type `typename` for an object named `name`, its path.
    pub fn new(typename: &str, name: &str, file: Option<&str>) -> (r: Tag)
        ensures
            r@ == (TagView { typename: typename@, name: name@, path: name@, file: opt_str_view(file) }),
    {
        Tag { typename: to_owned(typename), name: to_owned(name), path: to_owned(name), file: copy_opt(file) }
    }

    /// The report that the tagged object is bad.
    pub fn bad(&self) -> (r: TaggedBad<'_>)
        ensures
            r.tag@ == self@,
            r.what is None,
            r.why is None,
    {
        TaggedBad { tag: self, what: None, why: None }
    }

    /// The message telling that the object is of a bad type.
    pub fn bad_type(&self) -> (r: String)
        ensures
            r@ == file_prefix_text(self@.file) + "bad "@ + self@.typename,
    {
        let mut text = self.file_prefix();
        text.append("bad ");
        text.append(self.typename.as_str());
        text
    }

    /// This tag with another type.
    pub fn cast(&self, typename: &str) -> (r: Tag)
        ensures
            r@ == (TagView { typename: typename@, ..self@ }),
    {
        Tag {
            typename: to_owned(typename),
            name: self.name.clone(),
            path: self.path.clone(),
            file: self.file.clone(),
        }
    }

    /// A tag for the object `value` inside the tagged one, of type
    /// `typename` and read from `file` where given.
    pub fn extend(&self, value: &str, typename: Option<&str>, file: Option<&str>) -> (r: Tag)
        ensures
            ({
                let t = match typename {
                    Some(t) => t@,
                    None => self@.typename,
                };
                let f = match file {
                    Some(f) => Some(f@),
                    None => self@.file,
                };
                r@ == (TagView {
                    typename: t,
                    name: value@,
                    path: if self@.name.len() == 0 { value@ } else { self@.path + "."@ + value@ },
                    file: f,
                })
            }),
    {
        let typename = match typename {
            Some(t) => to_owned(t),
            None => self.typename.clone(),
        };
        let file = match file {
            Some(f) => Some(to_owned(f)),
            None => self.file.clone(),
        };
        let path = if self.name.unicode_len() == 0 {
            to_owned(value)
        } else {
            let mut path = self.path.clone();
            path.append(".");
            path.append(value);
            path
        };
        Tag { typename, name: to_owned(value), path, file }
    }

    /// The file of this tag.
    pub fn file(&self) -> (r: Option<&str>)
        ensures
            opt_str_view(r) == self@.file,
    {
        match &self.file {
            None => None,
            Some(f) => Some(f.as_str()),
        }
    }

    /// The prefix naming the file of this tag in messages.
    pub fn file_prefix(&self) -> (r: String)
        ensures
            r@ == file_prefix_text(self@.file),
    {
        match &self.file {
            None => String::new(),
            Some(f) => {
                let mut text = f.clone();
                text.append(": ");
                text
            },
        }
    }

    /// The name of the tagged object.
    pub fn name(&self) -> (r: &str)
        ensures
            r@ == self@.name,
    {
        self.name.as_str()
    }

    /// The dotted path of the tagged object.
    pub fn path(&self) -> (r: &str)
        ensures
            r@ == self@.path,
    {
        self.path.as_str()
    }
}

/// The report that a tagged object is bad, for `what`, and why.
pub struct TaggedBad<'a> {
    pub tag: &'a Tag,
    pub what: Option<String>,
    pub why: Option<String>,
}

impl<'a> TaggedBad<'a> {
    /// This report, about `what`.
    pub fn what(self, what: &str) -> (r: Self)
        ensures
            r.tag == self.tag,
            opt_view(r.what) == Some(what@),
            opt_view(r.why) == opt_view(self.why),
    {
        TaggedBad { tag: self.tag, what: Some(to_owned(what)), why: self.why }
    }

    /// This report, explained by `why`.
    pub fn why(self, why: String) -> (r: Self)
        ensures
            r.tag == self.tag,
            opt_view(r.what) == opt_view(self.what),
            opt_view(r.why) == Some(why@),
    {
        TaggedBad { tag: self.tag, what: self.what, why: Some(why) }
    }

    /// The message of this report.
    pub fn message(self) -> (r: String)
        ensures
            r@ == bad_text(self.tag@, opt_view(self.what), opt_view(self.why)),
    {
        let tag = self.tag;
        let mut t = String::new();
        if tag.path.unicode_len() == 0 {
            t.append(tag.typename.as_str());
        } else {
            t.append("'");
            t.append(tag.path.as_str());
            t.append("' ");
            t.append(tag.typename.as_str());
        }
        let mut text = tag.file_prefix();
        text.append("bad ");
        match self.what {
            None => {
                text.append(t.as_str());
            },
            Some(w) => {
                text.append(w.as_str());
                text.append(" for ");
                text.append(t.as_str());
            },
        }
        match self.why {
            None => {},
            Some(y) => {
                text.append(" (");
                text.append(y.as_str());
                text.append(")");
            },
        }
        proof {
            let tv = tag@;
            let tt = if tv.path.len() == 0 {
                tv.typename
            } else {
                "'"@ + tv.path + "' "@ + tv.typename
            };
            assert(t@ =~= tt);
        }
        assert(text@ =~= bad_text(self.tag@, opt_view(self.what), opt_view(self.why)));
        text
    }
}

/// What a property not given takes.
#[derive(Clone, Copy, PartialEq, Eq, Structural, Debug)]
pub enum PropertyDefault {
    /// Nothing: it must be given.
    Required,
    /// Nothing: it stays unset.
    Optional,
    /// Its default value.
    Value,
}

impl PropertyDefault {
    /// Whether the property must be given.
    pub fn is_required(&self) -> (r: bool)
        ensures
            r == (*self == PropertyDefault::Required),
    {
        match self {
            PropertyDefault::Required => true,
            _ => false,
        }
    }
}

/// A property read from a dictionary: its key, and what it takes when not
/// given.
pub struct Property {
    pub name: String,
    pub default: PropertyDefault,
}

/// The properties read from a dictionary, in order.
pub struct Extractor {
    pub properties: Vec<Property>,
}

/// The names of properties.
pub open spec fn property_names(ps: Seq<Property>) -> Seq<Seq<char>> {
    ps.map_values(|p: Property| p.name@)
}

/// The first position from `j` on of a property named `key`.
pub open spec fn find_name(names: Seq<Seq<char>>, key: Seq<char>, j: int) -> Option<int>
    decreases names.len() - j,
{
    if j < 0 || j >= names.len() {
        None
    } else if names[j] == key {
        Some(j)
    } else {
        find_name(names, key, j + 1)
    }
}

/// The last key before position `i` that gives the property at `p`.
pub open spec fn last_key(uses: Seq<Option<int>>, p: int, i: int) -> Option<int>
    decreases i,
{
    if i <= 0 || i > uses.len() {
        None
    } else if uses[i - 1] == Some(p) {
        Some(i - 1)
    } else {
        last_key(uses, p, i - 1)
    }
}

/// The first key from position `i` on that gives no property.
pub open spec fn first_unknown(uses: Seq<Option<int>>, i: int) -> Option<int>
    decreases uses.len() - i,
{
    if i < 0 || i >= uses.len() {
        None
    } else if uses[i] is None {
        Some(i)
    } else {
        first_unknown(uses, i + 1)
    }
}

/// The first required property from position `p` on that no key gives.
pub open spec fn first_missing(defaults: Seq<PropertyDefault>, given: Seq<Option<int>>, p: int) -> Option<int>
    decreases defaults.len() - p,
{
    if p < 0 || p >= defaults.len() {
        None
    } else if defaults[p] == PropertyDefault::Required && given[p] is None {
        Some(p)
    } else {
        first_missing(defaults, given, p + 1)
    }
}

/// An optional position, by its view.
pub open spec fn opt_pos(o: Option<usize>) -> Option<int> {
    match o {
        Some(i) => Some(i as int),
        None => None,
    }
}

/// Optional positions, by their view.
pub open spec fn opt_positions(s: Seq<Option<usize>>) -> Seq<Option<int>> {
    s.map_values(|o: Option<usize>| opt_pos(o))
}

proof fn lemma_last_key_push(s: Seq<Option<int>>, x: Option<int>, q: int, t: int)
    requires
        0 <= t <= s.len(),
    ensures
        last_key(s.push(x), q, t) == last_key(s, q, t),
    decreases t,
{
    if t > 0 {
        lemma_last_key_push(s, x, q, t - 1);
    }
}

proof fn lemma_first_unknown_push(s: Seq<Option<int>>, x: Option<int>, j: int)
    requires
        0 <= j <= s.len(),
    ensures
        first_unknown(s.push(x), j) == match first_unknown(s, j) {
            Some(u) => Some(u),
            None => if x is None { Some(s.len() as int) } else { None },
        },
    decreases s.len() - j,
{
    let t = s.push(x);
    if j < s.len() {
        assert(t[j] == s[j]);
        lemma_first_unknown_push(s, x, j + 1);
    } else {
        assert(t[j] == x);
        if x is Some {
            assert(first_unknown(t, j + 1) is None);
        }
    }
}

/// How the keys of a dictionary are read.
pub struct KeyPlan {
    /// For each key, in order, the property it gives, if any.
    pub uses: Vec<Option<usize>>,
    /// For each property, the key that gives it, if any.
    pub given: Vec<Option<usize>>,
}

/// Why reading a dictionary stops.
pub enum KeyError {
    /// At the key at `position`, which gives no property, where no other
    /// keys are kept.
    Unknown { position: usize, key: String },
    /// After reading the keys, at a required property that none gives.
    Missing { property: usize, name: String },
}

/// The text explaining why reading a dictionary stops at an unknown key, or
/// at a missing property.
pub open spec fn key_error_text(unknown: bool, name: Seq<char>) -> Seq<char> {
    if unknown {
        "unknown property '"@ + name + "'"@
    } else {
        "missing '"@ + name + "' property"@
    }
}

impl KeyError {
    /// Why reading the dictionary stops.
    pub fn why(&self) -> (r: String)
        ensures
            r@ == match self {
                KeyError::Unknown { key, .. } => key_error_text(true, key@),
                KeyError::Missing { name, .. } => key_error_text(false, name@),
            },
    {
        match self {
            KeyError::Unknown { key, .. } => {
                let mut text = String::from_str("unknown property '");
                text.append(key.as_str());
                text.append("'");
                text
            },
            KeyError::Missing { name, .. } => {
                let mut text = String::from_str("missing '");
                text.append(name.as_str());
                text.append("' property");
                text
            },
        }
    }
}

impl Extractor {
    /// What the properties take when not given.
    pub open spec fn defaults(self) -> Seq<PropertyDefault> {
        self.properties@.map_values(|p: Property| p.default)
    }

    /// The first property named `key`.
    fn property_of(&self, key: &str) -> (r: Option<usize>)
        ensures
            opt_pos(r) == find_name(property_names(self.properties@), key@, 0),
            r matches Some(p) ==> p < self.properties@.len(),
    {
        let ghost names = property_names(self.properties@);
        let mut j: usize = 0;
        while j < self.properties.len()
            invariant
                0 <= j <= self.properties@.len(),
                names == property_names(self.properties@),
                find_name(names, key@, 0) == find_name(names, key@, j as int),
            decreases self.properties@.len() - j,
        {
            assert(names[j as int] == self.properties@[j as int].name@);
            if str_eq(self.properties[j].name.as_str(), key) {
                return Some(j);
            }
            j = j + 1;
        }
        None
    }

    /// The first required property that no key gives, by `given`.
    fn missing(&self, given: &Vec<Option<usize>>) -> (r: Option<usize>)
        requires
            given@.len() == self.properties@.len(),
        ensures
            opt_pos(r) == first_missing(self.defaults(), opt_positions(given@), 0),
            r matches Some(p) ==> p < self.properties@.len(),
    {
        let ghost g = opt_positions(given@);
        let n = self.properties.len();
        let mut p: usize = 0;
        while p < n
            invariant
                0 <= p <= n,
                n == self.properties@.len(),
                given@.len() == n,
                g == opt_positions(given@),
                first_missing(self.defaults(), g, 0) == first_missing(self.defaults(), g, p as int),
            decreases n - p,
        {
            assert(self.defaults()[p as int] == self.properties@[p as int].default);
            assert(g[p as int] == opt_pos(given@[p as int]));
            if self.properties[p].default.is_required() && given[p].is_none() {
                return Some(p);
            }
            p = p + 1;
        }
        None
    }

    /// How the keys `keys` of a dictionary, in order, are read: the property
    /// each gives, the key that gives each property; and where reading
    /// stops: at the first key that gives no property, unless the others
    /// are kept, or else at the first required property that no key gives.
    pub fn extract(&self, keys: &[&str], keep_rest: bool) -> (r: (KeyPlan, Option<KeyError>))
        ensures
            ({
                let names = property_names(self.properties@);
                let (plan, stop) = r;
                let uses = opt_positions(plan.uses@);
                let given = opt_positions(plan.given@);
                &&& uses.len() == keys@.len()
                &&& forall|i: int| 0 <= i < keys@.len() ==> #[trigger] uses[i] == find_name(names, keys@[i]@, 0)
                &&& given.len() == self.properties@.len()
                &&& forall|p: int| 0 <= p < self.properties@.len() ==> #[trigger] given[p] == last_key(uses, p, uses.len() as int)
                &&& match stop {
                    Some(KeyError::Unknown { position, key }) => !keep_rest
                        && first_unknown(uses, 0) == Some(position as int)
                        && key@ == keys@[position as int]@,
                    Some(KeyError::Missing { property, name }) => (keep_rest || first_unknown(uses, 0) is None)
                        && first_missing(self.defaults(), given, 0) == Some(property as int)
                        && name@ == names[property as int],
                    None => (keep_rest || first_unknown(uses, 0) is None)
                        && first_missing(self.defaults(), given, 0) is None,
                }
            }),
    {
        let ghost names = property_names(self.properties@);
        let n = self.properties.len();
        let mut given: Vec<Option<usize>> = Vec::new();
        let mut p: usize = 0;
        while p < n
            invariant
                0 <= p <= n,
                given@.len() == p,
                forall|q: int| 0 <= q < p ==> given@[q] is None,
            decreases n - p,
        {
            given.push(None);
            p = p + 1;
        }
        let mut uses: Vec<Option<usize>> = Vec::new();
        let mut unknown: Option<usize> = None;
        let mut i: usize = 0;
        while i < keys.len()
            invariant
                n == self.properties@.len(),
                names == property_names(self.properties@),
                0 <= i <= keys@.len(),
                uses@.len() == i,
                given@.len() == n,
                forall|k: int| 0 <= k < i ==> #[trigger] opt_positions(uses@)[k] == find_name(names, keys@[k]@, 0),
                forall|q: int| 0 <= q < n ==> #[trigger] opt_positions(given@)[q] == last_key(opt_positions(uses@), q, i as int),
                opt_pos(unknown) == first_unknown(opt_positions(uses@), 0),
                unknown matches Some(u) ==> u < i,
            decreases keys@.len() - i,
        {
            let ghost before = opt_positions(uses@);
            let u = self.property_of(keys[i]);
            let ghost given_before = opt_positions(given@);
            uses.push(u);
            let ghost after = opt_positions(uses@);
            assert(after =~= before.push(opt_pos(u)));
            proof {
                lemma_first_unknown_push(before, opt_pos(u), 0);
                assert forall|q: int| 0 <= q < n implies last_key(after, q, i as int) == last_key(before, q, i as int) by {
                    lemma_last_key_push(before, opt_pos(u), q, i as int);
                }
            }
            match u {
                Some(q) => {
                    given.set(q, Some(i));
                },
                None => {
                    if unknown.is_none() {
                        unknown = Some(i);
                    }
                },
            }
            assert forall|q: int| 0 <= q < n implies #[trigger] opt_positions(given@)[q] == last_key(after, q, i + 1) by {
                assert(after[i as int] == opt_pos(u));
                assert(last_key(after, q, i as int) == last_key(before, q, i as int));
                assert(given_before[q] == last_key(before, q, i as int));
                if opt_pos(u) != Some(q) {
                    assert(opt_positions(given@)[q] == given_before[q]);
                }
            }
            i = i + 1;
        }
        let stop = match unknown {
            Some(position) => {
                if keep_rest {
                    None
                } else {
                    Some(KeyError::Unknown { position, key: to_owned(keys[position]) })
                }
            },
            None => None,
        };
        let stop = match stop {
            Some(e) => Some(e),
            None => match self.missing(&given) {
                Some(q) => {
                    assert(names[q as int] == self.properties@[q as int].name@);
                    Some(KeyError::Missing { property: q, name: self.properties[q].name.clone() })
                },
                None => None,
            },
        };
        (KeyPlan { uses, given }, stop)
    }
}

} // verus!
