use vstd::prelude::*;

use crate::ident::{generate, id_of, ID_LENGTH};

verus! {

/// Mathematical model of a [`Blob`]: its three fields as character sequences.
pub struct BlobView {
    pub id: Seq<char>,
    pub name: Seq<char>,
    pub content: Seq<char>,
}

/// A file-representing node: a name and a full text payload.
/// `id` is empty until the blob is committed, and is then the deterministic
/// identifier of `content`.
#[derive(Debug)]
pub struct Blob {
    pub id: String,
    pub name: String,
    pub content: String,
}

impl View for Blob {
    type V = BlobView;

    open spec fn view(&self) -> BlobView {
        BlobView { id: self.id@, name: self.name@, content: self.content@ }
    }
}

impl Clone for Blob {
    /// Clones preserve the whole model.
    fn clone(&self) -> (r: Blob)
        ensures
            r@ == self@,
    {
        Blob { id: self.id.clone(), name: self.name.clone(), content: self.content.clone() }
    }
}

impl Blob {
    /// Creates a `Blob` with all fields empty.
    pub fn default() -> (r: Blob)
        ensures
            r@ == (BlobView {
                id: Seq::<char>::empty(),
                name: Seq::<char>::empty(),
                content: Seq::<char>::empty(),
            }),
    {
        Blob { id: String::new(), name: String::new(), content: String::new() }
    }

    /// Creates a `Blob` from a name and a content; the id starts empty.
    pub fn new(name: String, content: String) -> (r: Blob)
        ensures
            r@ == (BlobView { id: Seq::<char>::empty(), name: name@, content: content@ }),
    {
        Blob { id: String::new(), name, content }
    }

    pub fn get_name(&self) -> (r: String)
        ensures
            r@ == self@.name,
    {
        self.name.clone()
    }

    pub fn set_name(&mut self, name: String)
        ensures
            final(self)@ == (BlobView { name: name@, ..old(self)@ }),
    {
        self.name = name;
    }

    pub fn get_id(&self) -> (r: String)
        ensures
            r@ == self@.id,
    {
        self.id.clone()
    }

    pub fn set_id(&mut self, id: String)
        ensures
            final(self)@ == (BlobView { id: id@, ..old(self)@ }),
    {
        self.id = id;
    }

    pub fn get_content(&self) -> (r: String)
        ensures
            r@ == self@.content,
    {
        self.content.clone()
    }

    /// True exactly when both blobs carry the same name.
    pub fn has_same_name(&self, other: &Blob) -> (r: bool)
        ensures
            r == (self@.name == other@.name),
    {
        self.name.eq(&other.name)
    }

    pub fn set_content(&mut self, content: String)
        ensures
            final(self)@ == (BlobView { content: content@, ..old(self)@ }),
    {
        self.content = content;
    }

    /// Computes and assigns the identifier of this blob's content, and
    /// returns it. Deterministic: unchanged content always yields the
    /// same id.
    pub fn generate_id(&mut self) -> (id: String)
        ensures
            final(self)@ == (BlobView { id: id_of(old(self)@.content), ..old(self)@ }),
            id@ == id_of(old(self)@.content),
            id@.len() == ID_LENGTH,
    {
        let id = generate(&self.content);
        self.set_id(id.clone());
        id
    }
}

} // verus!
