//! The license record and its rendering.

use vstd::prelude::*;

verus! {

/// One license record of the catalog: metadata from the bulk listing and,
/// once fetched, the full license text in `body`.
pub struct License {
    pub key: String,
    pub name: String,
    pub url: String,
    pub description: String,
    pub implementation: String,
    pub body: String,
}

/// The mathematical model of a record: each field as a character sequence.
#[verifier::ext_equal]
pub struct LicenseView {
    pub key: Seq<char>,
    pub name: Seq<char>,
    pub url: Seq<char>,
    pub description: Seq<char>,
    pub implementation: Seq<char>,
    pub body: Seq<char>,
}

impl View for License {
    type V = LicenseView;

    open spec fn view(&self) -> LicenseView {
        LicenseView {
            key: self.key@,
            name: self.name@,
            url: self.url@,
            description: self.description@,
            implementation: self.implementation@,
            body: self.body@,
        }
    }
}

impl Clone for License {
    fn clone(&self) -> (r: Self)
        ensures
            r == *self,
    {
        License {
            key: self.key.clone(),
            name: self.name.clone(),
            url: self.url.clone(),
            description: self.description.clone(),
            implementation: self.implementation.clone(),
            body: self.body.clone(),
        }
    }
}

/// The full rendering of a record: name, description and implementation note,
/// each preceded by its label, then the body, with a final newline.
pub open spec fn render_full_spec(l: LicenseView) -> Seq<char> {
    "Name: "@ + l.name + "\n\n"@ + "Description: "@ + l.description + "\n\n"@
        + "Implementation: "@ + l.implementation + "\n\n"@ + l.body + "\n"@
}

/// The body-only rendering of a record: the body text and a single newline.
pub open spec fn render_body_spec(l: LicenseView) -> Seq<char> {
    l.body + "\n"@
}

impl License {
    /// Renders the full formatted record.
    pub fn render_full(&self) -> (r: String)
        ensures
            r@ == render_full_spec(self@),
    {
        let mut r = String::new();
        r.append("Name: ");
        r.append(self.name.as_str());
        r.append("\n\n");
        r.append("Description: ");
        r.append(self.description.as_str());
        r.append("\n\n");
        r.append("Implementation: ");
        r.append(self.implementation.as_str());
        r.append("\n\n");
        r.append(self.body.as_str());
        r.append("\n");
        r
    }

    /// Renders only the body text, followed by a single newline.
    pub fn render_body(&self) -> (r: String)
        ensures
            r@ == render_body_spec(self@),
    {
        let mut r = String::new();
        r.append(self.body.as_str());
        r.append("\n");
        r
    }

    /// Renders the record as the `show` operation prints it: the body alone
    /// when `body_only` is set, the full formatted record otherwise.
    pub fn render_show(&self, body_only: bool) -> (r: String)
        ensures
            body_only ==> r@ == render_body_spec(self@),
            !body_only ==> r@ == render_full_spec(self@),
    {
        if body_only {
            self.render_body()
        } else {
            self.render_full()
        }
    }

    /// The contents that the `new` operation writes to the output file:
    /// exactly the body text, with no transformation.
    pub fn new_file_contents(&self) -> (r: String)
        ensures
            r@ == self@.body,
    {
        self.body.clone()
    }
}

} // verus!
