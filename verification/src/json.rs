//! The JSON tree and its mathematical model.
use vstd::prelude::*;

verus! {

/// A JSON document as an owned tree.
///
/// A number is carried as its literal text, so that no precision is lost on
/// the way through. An object is the list of its entries in document order.
/// A tree that was read from a document holds no key twice in one object
/// ([`JsonView::well_formed`]); sorting keeps it so, and asks for it nowhere.
#[derive(Debug, PartialEq, Eq)]
pub enum Json {
    Null,
    Bool(bool),
    Number(String),
    String(String),
    Array(Vec<Json>),
    Object(Vec<(String, Json)>),
}

/// The value that a [`Json`] tree denotes.
pub ghost enum JsonView {
    Null,
    Bool(bool),
    Number(Seq<char>),
    String(Seq<char>),
    Array(Seq<JsonView>),
    Object(Seq<(Seq<char>, JsonView)>),
}

impl JsonView {
    /// Whether no object of the tree holds a key twice.
    pub open spec fn well_formed(self) -> bool
        decreases self,
    {
        match self {
            JsonView::Array(items) => forall|i: int|
                0 <= i < items.len() ==> (#[trigger] items[i]).well_formed(),
            JsonView::Object(entries) => {
                &&& forall|i: int, j: int|
                    0 <= i < j < entries.len() ==> (#[trigger] entries[i]).0 != (
                    #[trigger] entries[j]).0
                &&& forall|i: int|
                    0 <= i < entries.len() ==> (#[trigger] entries[i]).1.well_formed()
            },
            _ => true,
        }
    }
}

impl Json {
    /// The value that the tree denotes.
    pub open spec fn model(self) -> JsonView
        decreases self,
    {
        match self {
            Json::Null => JsonView::Null,
            Json::Bool(b) => JsonView::Bool(b),
            Json::Number(text) => JsonView::Number(text@),
            Json::String(text) => JsonView::String(text@),
            Json::Array(items) => JsonView::Array(
                Seq::new(
                    items.len() as nat,
                    |i: int|
                        if 0 <= i < items.len() {
                            items[i].model()
                        } else {
                            JsonView::Null
                        },
                ),
            ),
            Json::Object(entries) => JsonView::Object(
                Seq::new(
                    entries.len() as nat,
                    |i: int|
                        if 0 <= i < entries.len() {
                            (entries[i].0@, entries[i].1.model())
                        } else {
                            (Seq::empty(), JsonView::Null)
                        },
                ),
            ),
        }
    }
}

impl View for Json {
    type V = JsonView;

    open spec fn view(&self) -> JsonView {
        self.model()
    }
}

impl Json {
    /// A deep copy: a tree of its own that denotes the same value.
    pub fn copy(&self) -> (out: Json)
        ensures
            out@ == self@,
        decreases self,
    {
        match self {
            Json::Null => Json::Null,
            Json::Bool(b) => Json::Bool(*b),
            Json::Number(text) => Json::Number(text.clone()),
            Json::String(text) => Json::String(text.clone()),
            Json::Array(items) => {
                let mut out: Vec<Json> = Vec::new();
                let mut i: usize = 0;
                while i < items.len()
                    invariant
                        decreases_to!(self => *items),
                        i <= items.len(),
                        out.len() == i,
                        forall|j: int| 0 <= j < i ==> out[j]@ == items[j]@,
                    decreases items.len() - i,
                {
                    assert(decreases_to!(*items => items[i as int]));
                    out.push(items[i].copy());
                    i += 1;
                }
                let copied = Json::Array(out);
                assert(copied@->Array_0 =~= self@->Array_0);
                copied
            },
            Json::Object(entries) => {
                let mut out: Vec<(String, Json)> = Vec::new();
                let mut i: usize = 0;
                while i < entries.len()
                    invariant
                        decreases_to!(self => *entries),
                        i <= entries.len(),
                        out.len() == i,
                        forall|j: int|
                            0 <= j < i ==> out[j].0@ == entries[j].0@ && out[j].1@ == entries[j].1@,
                    decreases entries.len() - i,
                {
                    assert(decreases_to!(*entries => entries[i as int]));
                    out.push((entries[i].0.clone(), entries[i].1.copy()));
                    i += 1;
                }
                let copied = Json::Object(out);
                assert(copied@->Object_0 =~= self@->Object_0);
                copied
            },
        }
    }
}

/// The values that the elements of an array denote.
pub open spec fn items_view(items: &Vec<Json>) -> Seq<JsonView> {
    Seq::new(items.len() as nat, |i: int| items[i]@)
}

/// The keys and values that the entries of an object denote.
pub open spec fn entries_view(entries: &Vec<(String, Json)>) -> Seq<(Seq<char>, JsonView)> {
    Seq::new(entries.len() as nat, |i: int| (entries[i].0@, entries[i].1@))
}

/// An array denotes the values of its elements, in place.
pub proof fn lemma_array_view(items: &Vec<Json>)
    ensures
        Json::Array(*items)@ == JsonView::Array(items_view(items)),
{
    assert(Json::Array(*items)@->Array_0 =~= items_view(items));
}

/// An object denotes the keys and values of its entries, in place.
pub proof fn lemma_object_view(entries: &Vec<(String, Json)>)
    ensures
        Json::Object(*entries)@ == JsonView::Object(entries_view(entries)),
{
    assert(Json::Object(*entries)@->Object_0 =~= entries_view(entries));
}

impl Clone for Json {
    fn clone(&self) -> (out: Json)
        ensures
            out@ == self@,
    {
        self.copy()
    }
}

} // verus!
