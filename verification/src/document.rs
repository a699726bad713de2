//! Document-shaped inputs around the store: the named document the embedding
//! oracle receives, and the upload form whose validated text becomes a
//! stored document.
use vstd::prelude::*;
use vstd::string::StringExecFns;

verus! {

/// A named document handed to the embedding oracle.
#[derive(Debug)]
pub struct DocumentEntry {
    pub name: String,
    pub content: String,
}

impl DocumentEntry {
    pub fn new(name: &str, content: &str) -> (r: DocumentEntry)
        ensures
            r.name@ == name@,
            r.content@ == content@,
    {
        DocumentEntry { name: name.to_owned(), content: content.to_owned() }
    }
}

/// An uploaded document as the front door receives it: both fields optional,
/// a missing one standing for empty text.
#[derive(Debug)]
pub struct UploadFileForm {
    pub name: Option<String>,
    pub content: Option<String>,
}

impl UploadFileForm {
    /// The form's name, a missing field reading as empty.
    pub open spec fn name_text(&self) -> Seq<char> {
        match self.name {
            Option::Some(n) => n@,
            Option::None => Seq::empty(),
        }
    }

    /// The form's content, a missing field reading as empty.
    pub open spec fn content_text(&self) -> Seq<char> {
        match self.content {
            Option::Some(c) => c@,
            Option::None => Seq::empty(),
        }
    }

    /// The text a valid upload stores: name and content joined by a line
    /// break. An upload without content is rejected, exactly when the
    /// content text is empty.
    pub fn query_text(&self) -> (r: Option<String>)
        ensures
            r is Some <==> self.content_text().len() > 0,
            r matches Some(s) ==> s@ == self.name_text() + "\n"@ + self.content_text(),
    {
        match &self.content {
            Option::None => None,
            Option::Some(c) => {
                if c.as_str().is_empty() {
                    return None;
                }
                let mut q = String::new();
                match &self.name {
                    Option::Some(n) => {
                        q.append(n.as_str());
                    },
                    Option::None => {},
                }
                q.append("\n");
                q.append(c.as_str());
                Some(q)
            },
        }
    }
}

} // verus!
