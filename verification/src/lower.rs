//! Lowering: from the tree to the text of a module, with what is reported beside it.

use vstd::prelude::*;
use vstd::utf8::valid_utf8;
use crate::bytes::{addressable, utf8};
use crate::hyper::Hyper;
use crate::jsx::Jsx;
use crate::mapping::NotaMappingMark;
use crate::marks::{
    collect_fence_langs, collect_form_langs, collect_form_marks, collect_marks, document_marks,
    forest_langs, form_marks, in_source_order, langs_are_valid, texts, tree_langs,
};
use crate::names::{check_reserved_collisions, collisions, surface_names, Collision, Surface};
use crate::output::{blank, is_faithful, Output, Written};
use crate::tree::{trees, Node, Tree};
use crate::unicode::{all_valid, utf8_valid};

verus! {

/// A lowering.
#[derive(Clone, Copy)]
pub struct NotaLowering<'a> {
    /// The source that the tree was read from.
    pub source: &'a str,
    /// What markup is lowered to.
    pub surface: Surface,
    /// Are mapping marks collected?
    pub collect_mappings: bool,
}

/// What a lowering gives.
pub struct NotaLoweringReturn {
    /// The text, and what of the source went where in it.
    pub output: Output,
    /// The mapping marks, in source order.
    pub mappings: Vec<NotaMappingMark>,
    /// What statements collide with.
    pub diagnostics: Vec<Collision>,
    /// The languages of the fenced code blocks, in order and without repetition.
    pub fence_langs: Vec<Vec<u8>>,
}

/// The module that a document lowers to.
pub open spec fn lowered_document(surface: Surface, s: Seq<u8>, nodes: Seq<Tree>) -> Written {
    match surface {
        Surface::Hyperscript => crate::hyper::document(s, nodes),
        Surface::Jsx => crate::jsx::document(s, nodes),
    }
}

/// The expression that a form lowers to.
pub open spec fn lowered_form(surface: Surface, s: Seq<u8>, t: Tree) -> Written {
    match surface {
        Surface::Hyperscript => crate::hyper::node(s, blank(), t),
        Surface::Jsx => crate::jsx::node(s, blank(), t),
    }
}

/// The collisions of a document.
pub open spec fn document_collisions(surface: Surface, s: Seq<u8>, nodes: Seq<Tree>) -> Seq<Collision> {
    collisions(s, surface_names(surface), Seq::empty(), nodes, 0)
}

impl<'a> NotaLowering<'a> {
    /// A lowering of what was read from `source`.
    pub fn new(source: &'a str, surface: Surface, collect_mappings: bool) -> (made: Self)
        ensures
            made == (NotaLowering { source, surface, collect_mappings }),
    {
        NotaLowering { source, surface, collect_mappings }
    }

    /// Lower a document.
    pub fn lower_document_program(&self, nodes: &Vec<Node>) -> (made: NotaLoweringReturn)
        requires
            addressable(utf8(self.source)),
        ensures
            made.output.written() == lowered_document(
                self.surface,
                utf8(self.source),
                trees(nodes@),
            ),
            is_faithful(utf8(self.source), made.output.written()),
            valid_utf8(made.output.code@),
            all_valid(texts(made.fence_langs@)),
            made.mappings@ == (if self.collect_mappings {
                document_marks(trees(nodes@))
            } else {
                Seq::empty()
            }),
            in_source_order(made.mappings@),
            made.diagnostics@ == document_collisions(
                self.surface,
                utf8(self.source),
                trees(nodes@),
            ),
            texts(made.fence_langs@) == forest_langs(
                utf8(self.source),
                Seq::empty(),
                trees(nodes@),
                0,
            ),
    {
        let output = match self.surface {
            Surface::Hyperscript => Hyper { source: self.source }.document(nodes),
            Surface::Jsx => Jsx { source: self.source }.document(nodes),
        };
        proof {
            reveal(is_faithful);
            utf8_valid(self.source);
            langs_are_valid(utf8(self.source), trees(nodes@));
        }
        let mappings = if self.collect_mappings {
            collect_marks(nodes)
        } else {
            Vec::new()
        };
        assert(!self.collect_mappings ==> mappings@ =~= Seq::<NotaMappingMark>::empty());
        NotaLoweringReturn {
            output,
            mappings,
            diagnostics: check_reserved_collisions(self.source, nodes, self.surface),
            fence_langs: collect_fence_langs(self.source, nodes),
        }
    }

    /// Lower one form, as an expression.
    pub fn lower_expression(&self, form: &Node) -> (made: NotaLoweringReturn)
        requires
            addressable(utf8(self.source)),
        ensures
            made.output.written() == lowered_form(self.surface, utf8(self.source), form.tree()),
            is_faithful(utf8(self.source), made.output.written()),
            valid_utf8(made.output.code@),
            made.mappings@ == (if self.collect_mappings {
                form_marks(form.tree())
            } else {
                Seq::empty()
            }),
            in_source_order(made.mappings@),
            made.diagnostics@ == Seq::<Collision>::empty(),
            texts(made.fence_langs@) == tree_langs(
                utf8(self.source),
                Seq::empty(),
                form.tree(),
            ),
    {
        let output = match self.surface {
            Surface::Hyperscript => Hyper { source: self.source }.expression(form),
            Surface::Jsx => Jsx { source: self.source }.expression(form),
        };
        proof {
            reveal(is_faithful);
        }
        let mappings = if self.collect_mappings {
            collect_form_marks(form)
        } else {
            Vec::new()
        };
        assert(!self.collect_mappings ==> mappings@ =~= Seq::<NotaMappingMark>::empty());
        let diagnostics: Vec<Collision> = Vec::new();
        assert(diagnostics@ =~= Seq::<Collision>::empty());
        NotaLoweringReturn {
            output,
            mappings,
            diagnostics,
            fence_langs: collect_form_langs(self.source, form),
        }
    }
}

} // verus!
