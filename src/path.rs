use vstd::prelude::*;

use crate::field::{parse_field_path, path_text, AccessModel, FieldPath, ReflectPathError};
use crate::text::{push_char, push_str};
use bevy_reflect::TypeRegistry;
use std::any::TypeId;

verus! {

#[verifier::external_type_specification]
#[verifier::external_body]
pub struct ExTypeId(std::any::TypeId);

/// Relies on `TypeId` being `Copy`: its clone is the same id.
pub assume_specification[ <std::any::TypeId as std::clone::Clone>::clone ](id: &TypeId) -> (r: TypeId)
    ensures
        r == *id,
;

#[verifier::external_type_specification]
#[verifier::external_body]
pub struct ExTypeRegistry(bevy_reflect::TypeRegistry);

/// Relies on `TypeRegistry::get_with_type_path` and `TypeRegistration::type_id`:
/// the id of the type registered under the full type path `type_path`, if any.
/// What comes back depends on what was registered, so nothing is promised of it.
#[verifier::external_body]
fn registered_type_id(registry: &TypeRegistry, type_path: &str) -> (r: Option<TypeId>) {
    match registry.get_with_type_path(type_path) {
        Some(registration) => Some(registration.type_id()),
        None => None,
    }
}

/// The position of the first `c` in `s` at or after `i`, if any.
pub open spec fn find_from(s: Seq<char>, c: char, i: int) -> Option<int>
    decreases s.len() - i,
{
    if i < 0 || i >= s.len() {
        None
    } else if s[i] == c {
        Some(i)
    } else {
        find_from(s, c, i + 1)
    }
}

/// The text before and after the first `c` in `s`, if `s` holds one.
pub open spec fn split_once(s: Seq<char>, c: char) -> Option<(Seq<char>, Seq<char>)> {
    match find_from(s, c, 0) {
        Some(i) => Some((s.subrange(0, i), s.subrange(i + 1, s.len() as int))),
        None => None,
    }
}

/// Finds the first `c` in `s` and returns the text before and after it.
pub fn split_at_first<'a>(s: &'a str, c: char) -> (r: Option<(&'a str, &'a str)>)
    ensures
        match split_once(s@, c) {
            Some((a, b)) => {
                let (x, y) = r.unwrap();
                r is Some && x@ == a && y@ == b
            },
            None => r is None,
        },
{
    let len = s.unicode_len();
    let mut i: usize = 0;
    while i < len
        invariant
            i <= len,
            len == s@.len(),
            find_from(s@, c, 0) == find_from(s@, c, i as int),
        decreases len - i,
    {
        if s.get_char(i) == c {
            let before = s.substring_char(0, i);
            let after = s.substring_char(i + 1, len);
            return Some((before, after));
        }
        i = i + 1;
    }
    None
}

/// The parts of `s` between the separators `sep`, front to back.
pub open spec fn split_all(s: Seq<char>, sep: char) -> Seq<Seq<char>>
    decreases s.len(),
{
    if s.len() == 0 {
        seq![Seq::empty()]
    } else if s.last() == sep {
        split_all(s.drop_last(), sep).push(Seq::empty())
    } else {
        let p = split_all(s.drop_last(), sep);
        p.update(p.len() - 1, p.last().push(s.last()))
    }
}

/// `p` without its leading empty parts.
pub open spec fn skip_leading_empty(p: Seq<Seq<char>>) -> Seq<Seq<char>>
    decreases p.len(),
{
    if p.len() > 0 && p[0].len() == 0 {
        skip_leading_empty(p.drop_first())
    } else {
        p
    }
}

/// The names of an entity path text: the parts between `/`, leading empty parts left out.
pub open spec fn entity_parts(s: Seq<char>) -> Seq<Seq<char>> {
    skip_leading_empty(split_all(s, '/'))
}

proof fn lemma_split_all_len(s: Seq<char>, sep: char)
    ensures
        split_all(s, sep).len() >= 1,
    decreases s.len(),
{
    if s.len() > 0 {
        lemma_split_all_len(s.drop_last(), sep);
    }
}

proof fn lemma_skip_push(q: Seq<Seq<char>>, x: Seq<char>)
    ensures
        skip_leading_empty(q.push(x)) == if skip_leading_empty(q).len() > 0 {
            skip_leading_empty(q).push(x)
        } else if x.len() == 0 {
            Seq::<Seq<char>>::empty()
        } else {
            seq![x]
        },
    decreases q.len(),
{
    let e = Seq::<Seq<char>>::empty();
    assert(skip_leading_empty(e) == e);
    if q.len() == 0 {
        assert(q.push(x) =~= seq![x]);
        if x.len() == 0 {
            assert(q.push(x).drop_first() =~= e);
            assert(skip_leading_empty(q.push(x)) == skip_leading_empty(q.push(x).drop_first()));
        }
    } else if q[0].len() == 0 {
        assert(q.push(x).drop_first() =~= q.drop_first().push(x));
        lemma_skip_push(q.drop_first(), x);
        assert(skip_leading_empty(q.push(x)) == skip_leading_empty(q.push(x).drop_first()));
        assert(skip_leading_empty(q) == skip_leading_empty(q.drop_first()));
    } else {
        assert(skip_leading_empty(q) == q);
        assert(skip_leading_empty(q.push(x)) == q.push(x));
    }
}

pub open spec fn strings_view(v: Seq<String>) -> Seq<Seq<char>> {
    v.map_values(|s: String| s@)
}

/// The names joined with `sep` between each two.
pub open spec fn joined(parts: Seq<Seq<char>>, sep: char) -> Seq<char>
    decreases parts.len(),
{
    if parts.len() == 0 {
        Seq::empty()
    } else if parts.len() == 1 {
        parts[0]
    } else {
        joined(parts.drop_last(), sep) + seq![sep] + parts.last()
    }
}

/// A path through a hierarchy of named entities, such as `root/hips/spine`,
/// kept as its names.
#[derive(Clone, Debug, PartialEq, Eq, Hash, PartialOrd, Ord)]
pub struct EntityPath {
    parts: Vec<String>,
}

impl View for EntityPath {
    type V = Seq<Seq<char>>;

    closed spec fn view(&self) -> Seq<Seq<char>> {
        strings_view(self.parts@)
    }
}

impl EntityPath {
    /// An entity path made of the given names.
    pub fn from_parts(parts: Vec<String>) -> (r: Self)
        ensures
            r@ == strings_view(parts@),
    {
        EntityPath { parts }
    }

    /// Splits a path text at each `/`. Leading separators are skipped, so
    /// `///root//hips` has the names `root`, an empty name, and `hips`.
    pub fn parse(src: &str) -> (r: Self)
        ensures
            r@ == entity_parts(src@),
    {
        let len = src.unicode_len();
        let mut parts: Vec<String> = Vec::new();
        let mut current = String::new();
        let mut i: usize = 0;
        proof {
            assert(src@.take(0) =~= Seq::<char>::empty());
            assert(strings_view(parts@) =~= Seq::<Seq<char>>::empty());
        }
        while i < len
            invariant
                i <= len,
                len == src@.len(),
                split_all(src@.take(i as int), '/').len() >= 1,
                current@ == split_all(src@.take(i as int), '/').last(),
                strings_view(parts@) == skip_leading_empty(
                    split_all(src@.take(i as int), '/').drop_last(),
                ),
            decreases len - i,
        {
            let ghost q = split_all(src@.take(i as int), '/');
            let c = src.get_char(i);
            assert(src@.take(i + 1).drop_last() =~= src@.take(i as int));
            if c == '/' {
                proof {
                    lemma_skip_push(q.drop_last(), q.last());
                    assert(q.drop_last().push(q.last()) =~= q);
                    assert(split_all(src@.take(i + 1), '/').drop_last() =~= q);
                }
                if parts.len() > 0 || current.as_str().unicode_len() > 0 {
                    let ghost before = parts@;
                    parts.push(current);
                    assert(strings_view(parts@) =~= strings_view(before).push(q.last()));
                }
                current = String::new();
                proof {
                    if !(strings_view(parts@).len() > 0) {
                        assert(strings_view(parts@) =~= Seq::<Seq<char>>::empty());
                    }
                }
            } else {
                push_char(&mut current, c);
                proof {
                    let q2 = split_all(src@.take(i + 1), '/');
                    assert(q2.drop_last() =~= q.drop_last());
                }
            }
            i = i + 1;
            proof {
                lemma_split_all_len(src@.take(i as int), '/');
            }
        }
        let ghost q = split_all(src@.take(i as int), '/');
        proof {
            lemma_skip_push(q.drop_last(), q.last());
            assert(q.drop_last().push(q.last()) =~= q);
            assert(src@.take(i as int) =~= src@);
        }
        if parts.len() > 0 || current.as_str().unicode_len() > 0 {
            let ghost before = parts@;
            parts.push(current);
            assert(strings_view(parts@) =~= strings_view(before).push(q.last()));
        } else {
            assert(strings_view(parts@) =~= Seq::<Seq<char>>::empty());
        }
        EntityPath { parts }
    }

    /// The names, front to back.
    pub fn iter(&self) -> (r: &[String])
        ensures
            strings_view(r@) == self@,
    {
        self.parts.as_slice()
    }

    /// Adds a name at the end.
    pub fn push(&mut self, part: String)
        ensures
            final(self)@ == old(self)@.push(part@),
    {
        let ghost before = self.parts@;
        self.parts.push(part);
        assert(strings_view(self.parts@) =~= strings_view(before).push(part@));
    }

    /// Removes the last name and returns it, if there is one.
    pub fn pop(&mut self) -> (r: Option<String>)
        ensures
            old(self)@.len() == 0 ==> r is None && final(self)@ == old(self)@,
            old(self)@.len() > 0 ==> r is Some && r->0@ == old(self)@.last() && final(self)@
                == old(self)@.drop_last(),
    {
        let ghost before = self.parts@;
        let r = self.parts.pop();
        if r.is_some() {
            assert(strings_view(self.parts@) =~= strings_view(before).drop_last());
        }
        r
    }

    /// The number of names.
    pub fn len(&self) -> (r: usize)
        ensures
            r == self@.len(),
    {
        self.parts.len()
    }

    /// Writes the path as text: the names separated by `/`.
    pub fn to_path_string(&self) -> (r: String)
        ensures
            r@ == joined(self@, '/'),
    {
        let mut out = String::new();
        let mut i: usize = 0;
        while i < self.parts.len()
            invariant
                i <= self.parts@.len(),
                out@ == joined(self@.take(i as int), '/'),
            decreases self.parts@.len() - i,
        {
            if i > 0 {
                push_char(&mut out, '/');
            }
            push_str(&mut out, self.parts[i].as_str());
            proof {
                let t = self@.take(i + 1);
                assert(t.drop_last() =~= self@.take(i as int));
                assert(t.last() == self.parts@[i as int]@);
            }
            i = i + 1;
            assert(out@ =~= joined(self@.take(i as int), '/'));
        }
        assert(self@.take(i as int) =~= self@);
        out
    }

    /// Whether there are no names.
    pub fn is_empty(&self) -> (r: bool)
        ensures
            r == (self@.len() == 0),
    {
        self.parts.len() == 0
    }
}

/// Why a path text could not be parsed.
#[derive(Debug, PartialEq, Eq)]
pub enum ParsePathError {
    /// A property path has no `@` between its entity part and its access part.
    MissingDelimiter,
    /// No registered component type has the name that the path starts with.
    InvalidComponentType,
    /// An access path has no `.` after its component name.
    NoComponentName,
    /// The field part of an access path is malformed.
    InvalidFieldPath(ReflectPathError),
}

/// What an access path is: its component type, the component's name, and the field path.
pub type AccessModelPath = (TypeId, Seq<char>, Seq<(AccessModel, usize)>);

/// Parses an access path text such as `my_crate::Transform.translation.x`,
/// given what the registry holds under the component name (the text before
/// the first `.`).
pub open spec fn access_path_of(s: Seq<char>, component_type_id: Option<TypeId>) -> Result<
    AccessModelPath,
    ParsePathError,
> {
    match split_once(s, '.') {
        None => Err(ParsePathError::NoComponentName),
        Some((component, field)) => match component_type_id {
            None => Err(ParsePathError::InvalidComponentType),
            Some(id) => match parse_field_path(field) {
                Ok(parts) => Ok((id, component, parts)),
                Err(e) => Err(ParsePathError::InvalidFieldPath(e)),
            },
        },
    }
}

/// A field within a component type, such as `my_crate::Transform.translation.x`.
#[derive(Clone, Debug, PartialEq, Eq, Hash, PartialOrd, Ord)]
pub struct AccessPath {
    component_type_id: TypeId,
    component_name: String,
    field_path: FieldPath,
}

impl View for AccessPath {
    type V = AccessModelPath;

    closed spec fn view(&self) -> AccessModelPath {
        (self.component_type_id, self.component_name@, self.field_path@)
    }
}

/// The result of a parse, seen through the views of its success value.
pub open spec fn access_result_view(r: Result<AccessPath, ParsePathError>) -> Result<
    AccessModelPath,
    ParsePathError,
> {
    match r {
        Ok(p) => Ok(p@),
        Err(e) => Err(e),
    }
}

impl AccessPath {
    /// Parses an access path, looking its component name up in `registry`.
    /// Whether the name is registered is up to the registry; everything else
    /// is as `parse_with` states.
    pub fn parse(registry: &TypeRegistry, path: &str) -> (r: Result<AccessPath, ParsePathError>)
        ensures
            exists|t: Option<TypeId>| access_result_view(r) == access_path_of(path@, t),
    {
        let component_type_id = match split_at_first(path, '.') {
            Some((component, _)) => registered_type_id(registry, component),
            None => None,
        };
        AccessPath::parse_with(path, component_type_id)
    }

    /// Parses an access path, where `component_type_id` is the type that is
    /// registered under the path's component name, if any.
    pub fn parse_with(path: &str, component_type_id: Option<TypeId>) -> (r: Result<
        AccessPath,
        ParsePathError,
    >)
        ensures
            access_result_view(r) == access_path_of(path@, component_type_id),
    {
        let (component, field) = match split_at_first(path, '.') {
            Some(parts) => parts,
            None => {
                return Err(ParsePathError::NoComponentName);
            },
        };
        let type_id = match component_type_id {
            Some(id) => id,
            None => {
                return Err(ParsePathError::InvalidComponentType);
            },
        };
        match FieldPath::parse(field) {
            Ok(field_path) => Ok(
                AccessPath { component_type_id: type_id, component_name: component.to_owned(), field_path },
            ),
            Err(e) => Err(ParsePathError::InvalidFieldPath(e)),
        }
    }

    /// The component type that the path starts in.
    pub fn component_type_id(&self) -> (r: TypeId)
        ensures
            r == self@.0,
    {
        self.component_type_id
    }

    /// The name of the component type.
    pub fn component_name(&self) -> (r: &str)
        ensures
            r@ == self@.1,
    {
        self.component_name.as_str()
    }

    /// The path to the field within the component.
    pub fn field_path(&self) -> (r: &FieldPath)
        ensures
            r@ == self@.2,
    {
        &self.field_path
    }

    /// Writes the path as text: the component name, a `.`, then the field path.
    pub fn to_path_string(&self) -> (r: String)
        ensures
            r@ == self@.1 + seq!['.'] + path_text(self@.2),
    {
        let mut out = String::new();
        push_str(&mut out, self.component_name.as_str());
        push_char(&mut out, '.');
        let field = self.field_path.to_path_string();
        push_str(&mut out, field.as_str());
        out
    }
}

/// What a property path is: the entity names, then the access path.
pub type PropertyModel = (Seq<Seq<char>>, AccessModelPath);

/// Parses a property path text such as `root/hips@my_crate::Transform.rotation`,
/// given what the registry holds under the component name of its access part.
pub open spec fn property_path_of(s: Seq<char>, component_type_id: Option<TypeId>) -> Result<
    PropertyModel,
    ParsePathError,
> {
    match split_once(s, '@') {
        None => Err(ParsePathError::MissingDelimiter),
        Some((entity, access)) => match access_path_of(access, component_type_id) {
            Ok(a) => Ok((entity_parts(entity), a)),
            Err(e) => Err(e),
        },
    }
}

/// A single field within a hierarchy of entities: an entity path, then an
/// access path, written with `@` between them.
#[derive(Clone, Debug, PartialEq, Eq, Hash, PartialOrd, Ord)]
pub struct PropertyPath {
    entity: EntityPath,
    access: AccessPath,
}

impl View for PropertyPath {
    type V = PropertyModel;

    closed spec fn view(&self) -> PropertyModel {
        (self.entity@, self.access@)
    }
}

/// The result of a parse, seen through the views of its success value.
pub open spec fn property_result_view(r: Result<PropertyPath, ParsePathError>) -> Result<
    PropertyModel,
    ParsePathError,
> {
    match r {
        Ok(p) => Ok(p@),
        Err(e) => Err(e),
    }
}

impl PropertyPath {
    /// Parses a property path, looking the component name up in `registry`.
    /// Whether the name is registered is up to the registry; everything else
    /// is as `parse_with` states.
    pub fn parse(registry: &TypeRegistry, path: &str) -> (r: Result<PropertyPath, ParsePathError>)
        ensures
            exists|t: Option<TypeId>| property_result_view(r) == property_path_of(path@, t),
    {
        let component_type_id = match split_at_first(path, '@') {
            Some((_, access)) => match split_at_first(access, '.') {
                Some((component, _)) => registered_type_id(registry, component),
                None => None,
            },
            None => None,
        };
        PropertyPath::parse_with(path, component_type_id)
    }

    /// Parses a property path, where `component_type_id` is the type that is
    /// registered under the component name of its access part, if any.
    pub fn parse_with(path: &str, component_type_id: Option<TypeId>) -> (r: Result<
        PropertyPath,
        ParsePathError,
    >)
        ensures
            property_result_view(r) == property_path_of(path@, component_type_id),
    {
        let (entity, access) = match split_at_first(path, '@') {
            Some(parts) => parts,
            None => {
                return Err(ParsePathError::MissingDelimiter);
            },
        };
        let access = match AccessPath::parse_with(access, component_type_id) {
            Ok(a) => a,
            Err(e) => {
                return Err(e);
            },
        };
        Ok(PropertyPath { entity: EntityPath::parse(entity), access })
    }

    /// A property path made of its two parts.
    pub fn from_parts(entity: EntityPath, access: AccessPath) -> (r: Self)
        ensures
            r@ == (entity@, access@),
    {
        PropertyPath { entity, access }
    }

    /// Splits the property path into its two parts.
    pub fn into_parts(self) -> (r: (EntityPath, AccessPath))
        ensures
            (r.0@, r.1@) == self@,
    {
        (self.entity, self.access)
    }

    /// The entity part.
    pub fn entity(&self) -> (r: &EntityPath)
        ensures
            r@ == self@.0,
    {
        &self.entity
    }

    /// The access part.
    pub fn access(&self) -> (r: &AccessPath)
        ensures
            r@ == self@.1,
    {
        &self.access
    }
}

} // verus!
