use vstd::prelude::*;

verus! {

/// An element of the page to be built: tag, classes, attributes, inner text and children.
pub struct Element {
    pub tag: String,
    pub classes: Vec<String>,
    pub attributes: Vec<(String, String)>,
    pub text: Option<String>,
    pub children: Vec<Element>,
}

/// The mathematical model of an element.
#[verifier::ext_equal]
pub struct ElementV {
    pub tag: Seq<char>,
    pub classes: Seq<Seq<char>>,
    pub attributes: Seq<(Seq<char>, Seq<char>)>,
    pub text: Option<Seq<char>>,
    pub children: Seq<ElementV>,
}

/// The views of a list of strings.
pub open spec fn texts_view(v: Seq<String>) -> Seq<Seq<char>> {
    Seq::new(v.len(), |i: int| v[i]@)
}

/// The views of a list of attributes.
pub open spec fn attributes_view(v: Seq<(String, String)>) -> Seq<(Seq<char>, Seq<char>)> {
    Seq::new(v.len(), |i: int| (v[i].0@, v[i].1@))
}

/// The view of an optional text.
pub open spec fn opt_text(t: Option<String>) -> Option<Seq<char>> {
    match t {
        Some(s) => Some(s@),
        None => None,
    }
}

impl Element {
    pub open spec fn view_of(self) -> ElementV
        decreases self,
    {
        ElementV {
            tag: self.tag@,
            classes: texts_view(self.classes@),
            attributes: attributes_view(self.attributes@),
            text: opt_text(self.text),
            children: Seq::new(
                self.children@.len(),
                |i: int| if 0 <= i < self.children@.len() { self.children@[i].view_of() } else { leaf(Seq::empty(), Seq::empty(), None) },
            ),
        }
    }

    /// An element with the given classes, attributes, text and children.
    pub fn new(
        tag: &str,
        classes: Vec<String>,
        attributes: Vec<(String, String)>,
        text: Option<String>,
        children: Vec<Element>,
    ) -> (res: Element)
        ensures
            res@ == (ElementV {
                tag: tag@,
                classes: texts_view(classes@),
                attributes: attributes_view(attributes@),
                text: opt_text(text),
                children: Seq::new(children@.len(), |i: int| children@[i]@),
            }),
    {
        let res = Element { tag: tag.to_string(), classes, attributes, text, children };
        assert(res@.tag == tag@);
        assert(res@.classes == texts_view(classes@));
        assert(res@.text == opt_text(res.text));
        assert(res@.children =~= Seq::new(res.children@.len(), |i: int| res.children@[i]@));
        res
    }
}

impl View for Element {
    type V = ElementV;

    open spec fn view(&self) -> ElementV {
        self.view_of()
    }
}

/// An element without attributes and children.
pub open spec fn leaf(tag: Seq<char>, classes: Seq<Seq<char>>, text: Option<Seq<char>>) -> ElementV {
    ElementV { tag, classes, attributes: Seq::empty(), text, children: Seq::empty() }
}

} // verus!
