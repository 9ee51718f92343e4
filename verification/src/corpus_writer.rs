//! Writing corpora.
use crate::apply;
use crate::apply::SymbolTree;
use crate::arena;
use crate::corpus;
use crate::corpus::Instance;
use crate::ids::Symbol;
use crate::signature::Signature;
use crate::text;
use crate::text::{joined, trimmed_end};
use crate::tree_lines;
use crate::tree_lines::tree_line;
use packed_term_arena::tree::{Tree, TreeArena};
use vstd::prelude::*;
use vstd::string::StringExecFns;

verus! {

/// The version line of a corpus.
pub open spec fn version_line(prefix: Seq<char>, annotated: bool) -> Seq<char> {
    prefix + "IRTG "@ + (if annotated {
        "annotated"@
    } else {
        "unannotated"@
    }) + " corpus file, v1.0"@
}

/// An interpretation and the class of its algebra.
#[derive(Debug)]
pub struct InterpretationDecl {
    pub name: String,
    pub class: String,
}

impl View for InterpretationDecl {
    type V = (Seq<char>, Seq<char>);

    open spec fn view(&self) -> (Seq<char>, Seq<char>) {
        (self.name@, self.class@)
    }
}

/// What interpretations say.
pub open spec fn decl_views(list: Seq<InterpretationDecl>) -> Seq<(Seq<char>, Seq<char>)> {
    Seq::new(list.len(), |i: int| list[i]@)
}

/// The lines of comments.
pub open spec fn comment_lines(prefix: Seq<char>, comments: Seq<Seq<char>>) -> Seq<Seq<char>> {
    Seq::new(comments.len(), |i: int| prefix + comments[i])
}

/// The lines that declare interpretations.
pub open spec fn decl_lines(
    prefix: Seq<char>,
    decls: Seq<(Seq<char>, Seq<char>)>,
) -> Seq<Seq<char>> {
    Seq::new(
        decls.len(),
        |i: int| prefix + "interpretation "@ + decls[i].0 + ": "@ + decls[i].1,
    )
}

/// The lines of a header.
pub open spec fn header_lines(
    prefix: Seq<char>,
    comments: Seq<Seq<char>>,
    decls: Seq<(Seq<char>, Seq<char>)>,
    annotated: bool,
) -> Seq<Seq<char>> {
    let blank = text::trim_end(prefix);
    seq![version_line(prefix, annotated), blank] + comment_lines(prefix, comments) + seq![blank]
        + decl_lines(prefix, decls) + seq![Seq::empty()]
}

/// A derivation tree over the symbols of a signature, and what it means in each
/// interpretation.
pub struct InterpretedDerivation<'a> {
    /// One value for each interpretation, in the declared order.
    pub values: Vec<String>,
    pub arena: &'a TreeArena<Symbol>,
    pub root: Tree,
    pub names: &'a Signature,
}

impl<'a> InterpretedDerivation<'a> {
    /// The derivation tree.
    pub open spec fn tree(&self) -> SymbolTree {
        apply::tree_at(arena::symbol_nodes(*self.arena), arena::tree_number(self.root))
    }

    /// The derivation tree on one line.
    pub open spec fn tree_text(&self) -> Seq<char> {
        tree_lines::tree_text(self.names@, self.tree())
    }

    /// Whether the arena holds the tree and the signature its symbols.
    pub open spec fn is_valid(&self) -> bool {
        &&& arena::children_first(arena::symbol_nodes(*self.arena))
        &&& arena::tree_number(self.root) < arena::symbol_nodes(*self.arena).len()
        &&& tree_lines::is_named(self.names@, self.tree())
    }
}

/// The lines of an instance: one for each interpretation, one for the derivation
/// tree in an annotated corpus, and a blank one. Without a derivation the texts of
/// the instance are echoed, and the derivation is `_null_`.
pub open spec fn instance_lines(
    names: Seq<Seq<char>>,
    derivation: Option<(Seq<Seq<char>>, Seq<char>)>,
    objects: Seq<(Seq<char>, Seq<char>, int)>,
    annotated: bool,
) -> Seq<Seq<char>> {
    let values = Seq::new(
        names.len(),
        |i: int|
            match derivation {
                Some((values, tree)) => values[i],
                None => match corpus::text_of(objects, names[i]) {
                    Some(s) => s,
                    None => "_null_"@,
                },
            },
    );
    let tree = match derivation {
        Some((values, tree)) => tree,
        None => "_null_"@,
    };
    (if annotated {
        values.push(tree)
    } else {
        values
    }).push(Seq::empty())
}

/// Writer for a corpus. It holds the lines that are still to be put out.
#[derive(Debug)]
pub struct CorpusWriter {
    annotated: bool,
    lines: Vec<String>,
}

impl CorpusWriter {
    /// Whether the corpus is annotated.
    pub closed spec fn is_annotated(&self) -> bool {
        self.annotated
    }

    /// The lines that are still to be put out.
    pub closed spec fn pending(&self) -> Seq<Seq<char>> {
        text::texts(self.lines@)
    }

    /// A writer that has the header to put out: the version line, comment lines, the
    /// declarations of interpretations and a blank line.
    pub fn new(
        comments: &Vec<String>,
        prefix: &str,
        interpretations: &Vec<InterpretationDecl>,
        annotated: bool,
    ) -> (w: Self)
        ensures
            w.is_annotated() == annotated,
            w.pending() == header_lines(
                prefix@,
                text::texts(comments@),
                decl_views(interpretations@),
                annotated,
            ),
    {
        let blank = trimmed_end(prefix);
        let mut lines: Vec<String> = Vec::new();
        let mut first = joined(prefix, "IRTG ");
        if annotated {
            first.append("annotated");
        } else {
            first.append("unannotated");
        }
        first.append(" corpus file, v1.0");
        let ghost version = first@;
        lines.push(first);
        lines.push(blank.clone());
        let ghost head = seq![version, blank@];
        let ghost notes = comment_lines(prefix@, text::texts(comments@));
        let mut i: usize = 0;
        assert(text::texts(lines@) =~= head + notes.take(0));
        while i < comments.len()
            invariant
                i <= comments@.len(),
                notes == comment_lines(prefix@, text::texts(comments@)),
                text::texts(lines@) == head + notes.take(i as int),
            decreases comments@.len() - i,
        {
            let ghost before = text::texts(lines@);
            lines.push(joined(prefix, comments[i].as_str()));
            proof {
                assert(text::texts(lines@) =~= before.push(notes[i as int]));
                assert(head + notes.take(i + 1) =~= before.push(notes[i as int]));
            }
            i += 1;
        }
        assert(notes.take(i as int) =~= notes);
        let ghost middle = text::texts(lines@).push(blank@);
        let ghost before_blank = text::texts(lines@);
        lines.push(blank);
        assert(text::texts(lines@) =~= middle);
        let ghost decls = decl_lines(prefix@, decl_views(interpretations@));
        let mut k: usize = 0;
        assert(text::texts(lines@) =~= middle + decls.take(0));
        while k < interpretations.len()
            invariant
                k <= interpretations@.len(),
                decls == decl_lines(prefix@, decl_views(interpretations@)),
                text::texts(lines@) == middle + decls.take(k as int),
            decreases interpretations@.len() - k,
        {
            let ghost before = text::texts(lines@);
            let mut line = joined(prefix, "interpretation ");
            line.append(interpretations[k].name.as_str());
            line.append(": ");
            line.append(interpretations[k].class.as_str());
            lines.push(line);
            proof {
                assert(text::texts(lines@) =~= before.push(decls[k as int]));
                assert(middle + decls.take(k + 1) =~= before.push(decls[k as int]));
            }
            k += 1;
        }
        assert(decls.take(k as int) =~= decls);
        let ghost last = text::texts(lines@);
        lines.push(String::new());
        proof {
            assert(text::texts(lines@) =~= last.push(Seq::empty()));
            assert(text::texts(lines@) =~= header_lines(
                prefix@,
                text::texts(comments@),
                decl_views(interpretations@),
                annotated,
            ));
        }
        CorpusWriter { annotated, lines }
    }

    /// Adds the lines of one instance.
    pub fn write_instance(
        &mut self,
        interp_order: &Vec<String>,
        derivation: Option<&InterpretedDerivation>,
        fallback: &Instance,
    )
        requires
            derivation matches Some(d) ==> d.values@.len() == interp_order@.len() && d.is_valid(),
        ensures
            final(self).is_annotated() == old(self).is_annotated(),
            final(self).pending() == old(self).pending() + instance_lines(
                text::texts(interp_order@),
                match derivation {
                    Some(d) => Some((text::texts(d.values@), d.tree_text())),
                    None => None,
                },
                fallback@.objects,
                old(self).is_annotated(),
            ),
    {
        let ghost start = text::texts(self.lines@);
        let ghost names = text::texts(interp_order@);
        let ghost model = match derivation {
            Some(d) => Some((text::texts(d.values@), d.tree_text())),
            None => None,
        };
        let ghost owed = instance_lines(names, model, fallback@.objects, self.annotated);
        let mut i: usize = 0;
        assert(text::texts(self.lines@) =~= start + owed.take(0));
        while i < interp_order.len()
            invariant
                i <= interp_order@.len(),
                names == text::texts(interp_order@),
                self.annotated == old(self).annotated,
                derivation matches Some(d) ==> d.values@.len() == interp_order@.len()
                    && d.is_valid() && model == Some((text::texts(d.values@), d.tree_text())),
                derivation is None ==> model is None,
                owed == instance_lines(names, model, fallback@.objects, self.annotated),
                text::texts(self.lines@) == start + owed.take(i as int),
            decreases interp_order@.len() - i,
        {
            let ghost before = text::texts(self.lines@);
            let line = match derivation {
                Some(d) => d.values[i].clone(),
                None => match fallback.text(interp_order[i].as_str()) {
                    Some(s) => s.to_owned(),
                    None => "_null_".to_owned(),
                },
            };
            let ghost one = line@;
            self.lines.push(line);
            proof {
                assert(owed[i as int] == one);
                assert(text::texts(self.lines@) =~= before.push(one));
                assert(start + owed.take(i + 1) =~= before.push(one));
            }
            i += 1;
        }
        if self.annotated {
            let ghost before = text::texts(self.lines@);
            let line = match derivation {
                Some(d) => tree_line(d.arena, d.root, d.names),
                None => "_null_".to_owned(),
            };
            let ghost one = line@;
            self.lines.push(line);
            proof {
                assert(owed[i as int] == one);
                assert(text::texts(self.lines@) =~= before.push(one));
                assert(start + owed.take(i + 1) =~= before.push(one));
            }
        }
        let ghost before = text::texts(self.lines@);
        self.lines.push(String::new());
        proof {
            assert(text::texts(self.lines@) =~= before.push(Seq::empty()));
            assert(text::texts(self.lines@) =~= start + owed);
        }
    }

    /// The lines that are still to be put out; nothing is left afterwards.
    pub fn take_lines(&mut self) -> (r: Vec<String>)
        ensures
            text::texts(r@) == old(self).pending(),
            final(self).pending() == Seq::<Seq<char>>::empty(),
            final(self).is_annotated() == old(self).is_annotated(),
    {
        let mut r: Vec<String> = Vec::new();
        std::mem::swap(&mut r, &mut self.lines);
        assert(text::texts(self.lines@) =~= Seq::empty());
        r
    }
}

} // verus!
