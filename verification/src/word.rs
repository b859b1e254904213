//! A dictionary entry and its HTML rendering.
use vstd::prelude::*;

use crate::error::Error;
use crate::markup::{render_definition, render_line};
pub use crate::text::texts;

verus! {

/// A headword with its alternative spellings and its definition lines.
pub struct Word {
    pub name: String,
    pub alias: Vec<String>,
    pub def: Vec<String>,
}

/// What a [`Word`] holds, as plain text.
pub struct WordModel {
    pub name: Seq<char>,
    pub alias: Seq<Seq<char>>,
    pub def: Seq<Seq<char>>,
}

impl View for Word {
    type V = WordModel;

    open spec fn view(&self) -> WordModel {
        WordModel { name: self.name@, alias: texts(self.alias@), def: texts(self.def@) }
    }
}

/// The model of an entry that has nothing in it.
pub open spec fn empty_word() -> WordModel {
    WordModel { name: Seq::empty(), alias: Seq::empty(), def: Seq::empty() }
}

impl Default for Word {
    fn default() -> (w: Self)
        ensures
            w@ == empty_word(),
    {
        let w = Word { name: String::new(), alias: Vec::new(), def: Vec::new() };
        assert(texts(w.alias@) =~= Seq::<Seq<char>>::empty());
        assert(texts(w.def@) =~= Seq::<Seq<char>>::empty());
        w
    }
}

/// The HTML for a list of definition lines: each line rendered and closed by
/// `</div>`, in order; `None` when any line cannot be rendered.
pub open spec fn render_defs(defs: Seq<Seq<char>>) -> Option<Seq<char>>
    decreases defs.len(),
{
    if defs.len() == 0 {
        Some(Seq::empty())
    } else {
        match (render_defs(defs.drop_last()), render_line(defs.last())) {
            (Some(front), Some(line)) => Some(front + line + "</div>"@),
            _ => None,
        }
    }
}

/// The definitions render exactly when every one of them does.
pub proof fn lemma_render_defs_some(defs: Seq<Seq<char>>)
    ensures
        render_defs(defs) is Some <==> (forall|i: int|
            0 <= i < defs.len() ==> (#[trigger] render_line(defs[i])) is Some),
    decreases defs.len(),
{
    if defs.len() > 0 {
        let front = defs.drop_last();
        lemma_render_defs_some(front);
        assert forall|i: int| 0 <= i < front.len() implies front[i] == defs[i] by {}
        if render_defs(defs) is Some {
            assert forall|i: int| 0 <= i < defs.len() implies (#[trigger] render_line(
                defs[i],
            )) is Some by {
                if i < front.len() {
                    assert(render_line(front[i]) is Some);
                }
            }
        } else {
            if render_defs(front) is None {
                let i = choose|i: int| 0 <= i < front.len() && (#[trigger] render_line(front[i])) is None;
                assert(render_line(defs[i]) is None);
            } else {
                assert(render_line(defs[defs.len() - 1]) is None);
            }
        }
    }
}

/// Rendering a list of definitions renders its two parts one after the other.
pub proof fn law_render_defs_concat(a: Seq<Seq<char>>, b: Seq<Seq<char>>)
    requires
        render_defs(a) is Some,
        render_defs(b) is Some,
    ensures
        render_defs(a + b) == Some(render_defs(a)->0 + render_defs(b)->0),
    decreases b.len(),
{
    if b.len() == 0 {
        assert(a + b =~= a);
        assert(render_defs(a)->0 + render_defs(b)->0 =~= render_defs(a)->0);
    } else {
        let b1 = b.drop_last();
        assert((a + b).drop_last() =~= a + b1);
        assert((a + b).last() == b.last());
        law_render_defs_concat(a, b1);
        let ra = render_defs(a)->0;
        let rb1 = render_defs(b1)->0;
        let l = render_line(b.last())->0;
        assert(ra + rb1 + l + "</div>"@ =~= ra + (rb1 + l + "</div>"@));
    }
}

impl Word {
    /// Whether every definition line can be rendered.
    pub fn markup_is_well_formed(&self) -> (b: bool)
        ensures
            b == render_defs(self@.def) is Some,
    {
        proof {
            lemma_render_defs_some(self@.def);
        }
        let n = self.def.len();
        for i in 0..n
            invariant
                n == self.def@.len(),
                forall|j: int| 0 <= j < i ==> (#[trigger] render_line(self@.def[j])) is Some,
                render_defs(self@.def) is Some <==> (forall|j: int|
                    0 <= j < self@.def.len() ==> (#[trigger] render_line(self@.def[j])) is Some),
        {
            if render_definition(self.def[i].as_str()).is_none() {
                assert(render_line(self@.def[i as int]) is None);
                return false;
            }
        }
        true
    }

    /// Renders all definition lines to HTML, each closed by `</div>`.
    pub fn to_html(&self) -> (r: Result<String, Error>)
        requires
            render_defs(self@.def) is Some,
        ensures
            r matches Ok(h) && h@ == render_defs(self@.def)->0,
    {
        proof {
            lemma_render_defs_some(self@.def);
        }
        let mut html = String::new();
        let n = self.def.len();
        for i in 0..n
            invariant
                n == self.def@.len(),
                forall|j: int| 0 <= j < n ==> (#[trigger] render_line(self@.def[j])) is Some,
                render_defs(self@.def.take(i as int)) == Some(html@),
        {
            let ghost defs = self@.def;
            assert(defs.take(i + 1).drop_last() =~= defs.take(i as int));
            assert(defs.take(i + 1).last() == defs[i as int]);
            assert(render_line(defs[i as int]) is Some);
            match render_definition(self.def[i].as_str()) {
                Some(line) => {
                    html.append(line.as_str());
                    html.append("</div>");
                },
                None => {
                    assert(false);
                },
            }
        }
        assert(self@.def.take(n as int) =~= self@.def);
        Ok(html)
    }
}

} // verus!
