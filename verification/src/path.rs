//! Paths into a JSON document.

use crate::text::{decimal, decimal_text, join, join_texts, same_text, texts, Text};
use smallvec::SmallVec;
use smartstring::alias::String as SmartString;
use vstd::prelude::*;

verus! {

/// A step of a path: to a member of an object or to an item of an array.
pub enum Step {
    Key(Text),
    Index(nat),
}

/// Expresses a JSON path element, either a string or a number.
#[derive(Hash, Debug, PartialEq)]
pub enum PathItem {
    Key(String),
    Index(usize),
}

/// A step written out.
pub open spec fn step_text(step: Step) -> Text {
    match step {
        Step::Key(key) => key,
        Step::Index(index) => decimal(index),
    }
}

/// The steps of a path, each written out.
pub open spec fn step_texts(steps: Seq<Step>) -> Seq<Text> {
    Seq::new(steps.len(), |i: int| step_text(steps[i]))
}

impl PathItem {
    /// The step that the element stands for.
    pub open spec fn step(self) -> Step {
        match self {
            PathItem::Key(key) => Step::Key(key@),
            PathItem::Index(index) => Step::Index(index as nat),
        }
    }

    /// Writes the element: a key as it is, a number in decimal.
    pub fn to_text(&self) -> (text: String)
        ensures
            text@ == step_text(self.step()),
    {
        match self {
            PathItem::Key(key) => key.clone(),
            PathItem::Index(index) => decimal_text(*index as u128),
        }
    }
}

impl Clone for PathItem {
    fn clone(&self) -> (copy: PathItem)
        ensures
            copy.step() == self.step(),
    {
        match self {
            PathItem::Key(key) => PathItem::Key(key.clone()),
            PathItem::Index(index) => PathItem::Index(*index),
        }
    }
}

/// A path that names the members on the way and passes over the places in arrays.
#[verifier::external_body]
#[derive(Debug)]
pub struct KeyPath {
    keys: SmallVec<[SmartString; 5]>,
}

/// The keys that the list inside a `KeyPath` holds, in their order.
pub uninterp spec fn keys_of(path: KeyPath) -> Seq<Text>;

impl KeyPath {
    /// `SmallVec::new`. Believed of it: the list is empty.
    #[verifier::external_body]
    fn empty() -> (path: KeyPath)
        ensures
            keys_of(path) == Seq::<Text>::empty(),
    {
        KeyPath { keys: SmallVec::new() }
    }

    /// `SmallVec::push`, of a `SmartString` made from the key. Believed of it: the key becomes the
    /// last one.
    #[verifier::external_body]
    fn push_key(&mut self, key: &str)
        ensures
            keys_of(*final(self)) == keys_of(*old(self)).push(key@),
    {
        self.keys.push(SmartString::from(key));
    }

    /// `SmallVec::len`. Believed of it: it counts the keys.
    #[verifier::external_body]
    fn count(&self) -> (n: usize)
        ensures
            n == keys_of(*self).len(),
    {
        self.keys.len()
    }

    /// The indexing of a `SmallVec`, and `SmartString::as_str`. Believed of it: it gives the key at
    /// the place asked for.
    #[verifier::external_body]
    fn key_at(&self, i: usize) -> (key: &str)
        requires
            i < keys_of(*self).len(),
        ensures
            key@ == keys_of(*self)[i as int],
    {
        self.keys[i].as_str()
    }

    /// `SmallVec::clone`, which clones each `SmartString`. Believed of it: the copy holds the same
    /// keys.
    #[verifier::external_body]
    fn duplicate(&self) -> (copy: KeyPath)
        ensures
            keys_of(copy) == keys_of(*self),
    {
        KeyPath { keys: self.keys.clone() }
    }

    /// The path to the document itself.
    pub fn new() -> (path: KeyPath)
        ensures
            keys_of(path) == Seq::<Text>::empty(),
    {
        KeyPath::empty()
    }

    /// The path with the given keys.
    pub fn from_keys(keys: &Vec<String>) -> (path: KeyPath)
        ensures
            keys_of(path) == texts(keys@),
    {
        let mut path = KeyPath::empty();
        for i in 0..keys.len()
            invariant
                keys_of(path) == texts(keys@).take(i as int),
        {
            path.push_key(keys[i].as_str());
            assert(texts(keys@).take(i + 1) =~= texts(keys@).take(i as int).push(keys@[i as int]@));
        }
        assert(texts(keys@).take(keys@.len() as int) =~= texts(keys@));
        path
    }

    /// The path to a member below this one.
    pub fn child(&self, key: &str) -> (path: KeyPath)
        ensures
            keys_of(path) == keys_of(*self).push(key@),
    {
        let mut path = self.duplicate();
        path.push_key(key);
        path
    }

    /// Whether this is the path to the document itself.
    pub fn is_empty(&self) -> (empty: bool)
        ensures
            empty == (keys_of(*self).len() == 0),
    {
        self.count() == 0
    }

    /// The keys of the path.
    pub fn to_keys(&self) -> (keys: Vec<String>)
        ensures
            texts(keys@) == keys_of(*self),
    {
        let mut keys: Vec<String> = Vec::new();
        let n = self.count();
        for i in 0..n
            invariant
                n == keys_of(*self).len(),
                keys@.len() == i,
                forall|j: int| 0 <= j < i ==> (#[trigger] keys@[j])@ == keys_of(*self)[j],
        {
            keys.push(self.key_at(i).to_owned());
        }
        assert(texts(keys@) =~= keys_of(*self));
        keys
    }

    /// The keys joined by a separator.
    pub fn join(&self, separator: &str) -> (text: String)
        ensures
            text@ == join(keys_of(*self), separator@),
    {
        let keys = self.to_keys();
        join_texts(&keys, separator)
    }

    /// Whether two paths have the same keys.
    pub fn same(&self, other: &KeyPath) -> (same: bool)
        ensures
            same == (keys_of(*self) == keys_of(*other)),
    {
        let n = self.count();
        if n != other.count() {
            return false;
        }
        for i in 0..n
            invariant
                n == keys_of(*self).len(),
                n == keys_of(*other).len(),
                forall|j: int| 0 <= j < i ==> keys_of(*self)[j] == keys_of(*other)[j],
        {
            if !same_text(self.key_at(i), other.key_at(i)) {
                return false;
            }
        }
        assert(keys_of(*self) =~= keys_of(*other));
        true
    }
}

impl Clone for KeyPath {
    fn clone(&self) -> (copy: KeyPath)
        ensures
            keys_of(copy) == keys_of(*self),
    {
        self.duplicate()
    }
}

/// The keys of each path of a list.
pub open spec fn key_paths(list: Seq<KeyPath>) -> Seq<Seq<Text>> {
    Seq::new(list.len(), |i: int| keys_of(list[i]))
}

/// Whether a list holds a path.
pub fn holds_path(list: &Vec<KeyPath>, path: &KeyPath) -> (holds: bool)
    ensures
        holds == key_paths(list@).contains(keys_of(*path)),
{
    for i in 0..list.len()
        invariant
            forall|j: int| 0 <= j < i ==> #[trigger] key_paths(list@)[j] != keys_of(*path),
    {
        if list[i].same(path) {
            assert(key_paths(list@)[i as int] == keys_of(*path));
            return true;
        }
    }
    false
}

/// A copy of a list of paths.
pub fn copy_key_paths(list: &Vec<KeyPath>) -> (copy: Vec<KeyPath>)
    ensures
        key_paths(copy@) == key_paths(list@),
{
    let mut copy: Vec<KeyPath> = Vec::new();
    for i in 0..list.len()
        invariant
            copy@.len() == i,
            forall|j: int| 0 <= j < i ==> keys_of(#[trigger] copy@[j]) == keys_of(list@[j]),
    {
        copy.push(list[i].clone());
    }
    assert(key_paths(copy@) =~= key_paths(list@));
    copy
}

/// A path that names every step, the places in arrays too.
#[verifier::external_body]
#[derive(Debug)]
pub struct FullPath {
    items: SmallVec<[PathItem; 10]>,
}

/// The steps that the list inside a `FullPath` holds, in their order.
pub uninterp spec fn steps_of(path: FullPath) -> Seq<Step>;

impl FullPath {
    /// `SmallVec::new`. Believed of it: the list is empty.
    #[verifier::external_body]
    fn empty() -> (path: FullPath)
        ensures
            steps_of(path) == Seq::<Step>::empty(),
    {
        FullPath { items: SmallVec::new() }
    }

    /// `SmallVec::push`. Believed of it: the step becomes the last one.
    #[verifier::external_body]
    fn push_item(&mut self, item: PathItem)
        ensures
            steps_of(*final(self)) == steps_of(*old(self)).push(item.step()),
    {
        self.items.push(item);
    }

    /// `SmallVec::len`. Believed of it: it counts the steps.
    #[verifier::external_body]
    fn count(&self) -> (n: usize)
        ensures
            n == steps_of(*self).len(),
    {
        self.items.len()
    }

    /// The indexing of a `SmallVec`. Believed of it: it gives the step at the place asked for.
    #[verifier::external_body]
    fn item_at(&self, i: usize) -> (item: &PathItem)
        requires
            i < steps_of(*self).len(),
        ensures
            item.step() == steps_of(*self)[i as int],
    {
        &self.items[i]
    }

    /// `SmallVec::clone`. Believed of it: the copy holds the same steps.
    #[verifier::external_body]
    fn duplicate(&self) -> (copy: FullPath)
        ensures
            steps_of(copy) == steps_of(*self),
    {
        FullPath { items: self.items.clone() }
    }

    /// The path to the document itself.
    pub fn new() -> (path: FullPath)
        ensures
            steps_of(path) == Seq::<Step>::empty(),
    {
        FullPath::empty()
    }

    /// The path one step further.
    pub fn child(&self, item: PathItem) -> (path: FullPath)
        ensures
            steps_of(path) == steps_of(*self).push(item.step()),
    {
        let mut path = self.duplicate();
        path.push_item(item);
        path
    }

    /// The steps joined by a separator.
    pub fn join(&self, separator: &str) -> (text: String)
        ensures
            text@ == join(step_texts(steps_of(*self)), separator@),
    {
        let mut parts: Vec<String> = Vec::new();
        let n = self.count();
        for i in 0..n
            invariant
                n == steps_of(*self).len(),
                parts@.len() == i,
                forall|j: int|
                    0 <= j < i ==> (#[trigger] parts@[j])@ == step_text(steps_of(*self)[j]),
        {
            parts.push(self.item_at(i).to_text());
        }
        assert(texts(parts@) =~= step_texts(steps_of(*self)));
        join_texts(&parts, separator)
    }
}

impl Clone for FullPath {
    fn clone(&self) -> (copy: FullPath)
        ensures
            steps_of(copy) == steps_of(*self),
    {
        self.duplicate()
    }
}

/// The steps of each path of a list.
pub open spec fn full_paths(list: Seq<FullPath>) -> Seq<Seq<Step>> {
    Seq::new(list.len(), |i: int| steps_of(list[i]))
}

/// A copy of a list of paths.
pub fn copy_full_paths(list: &Vec<FullPath>) -> (copy: Vec<FullPath>)
    ensures
        full_paths(copy@) == full_paths(list@),
{
    let mut copy: Vec<FullPath> = Vec::new();
    for i in 0..list.len()
        invariant
            copy@.len() == i,
            forall|j: int| 0 <= j < i ==> steps_of(#[trigger] copy@[j]) == steps_of(list@[j]),
    {
        copy.push(list[i].clone());
    }
    assert(full_paths(copy@) =~= full_paths(list@));
    copy
}

} // verus!
