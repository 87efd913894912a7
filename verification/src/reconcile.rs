//! Putting comments and blank lines back between the elements of a program.

use crate::comments::{
    closing_docs, inside_end, inside_until, leading_docs, leading_end, leading_until,
    lemma_docs_pushed, push_closing, push_leading, push_separator, push_trailing, separator,
    trailing_docs, trailing_end, trailing_until, trivia_valid, Comment,
};
use crate::doc::{doc_view, docs_view, Doc, DocView};
use vstd::prelude::*;
use vstd::string::StringSliceAdditionalSpecFns;
use vstd::utf8::is_char_boundary;

verus! {

/// A node of the program as the printer needs it: the byte offsets of its
/// span in the source text and the document that renders it. Comments that
/// start inside the span belong to that document.
#[derive(Debug, PartialEq, Eq)]
pub struct Element<'a> {
    pub start: u32,
    pub end: u32,
    pub doc: Doc<'a>,
}

/// The mathematical value of an [`Element`].
pub struct ElementView {
    pub start: u32,
    pub end: u32,
    pub doc: DocView,
}

impl<'a> View for Element<'a> {
    type V = ElementView;

    open spec fn view(&self) -> ElementView {
        ElementView { start: self.start, end: self.end, doc: doc_view(self.doc) }
    }
}

/// The views of a sequence of elements, in order.
pub open spec fn elements_view<'a>(elements: Seq<Element<'a>>) -> Seq<ElementView> {
    Seq::new(elements.len(), |i: int| elements[i]@)
}

/// The span of the element lies in the text and its end cuts no character.
pub open spec fn element_valid(bytes: Seq<u8>, e: ElementView) -> bool {
    e.start <= e.end <= bytes.len() && is_char_boundary(bytes, e.end as int)
}

/// Every element is valid.
pub open spec fn program_valid(bytes: Seq<u8>, elements: Seq<ElementView>) -> bool {
    forall|i: int| 0 <= i < elements.len() ==> element_valid(bytes, #[trigger] elements[i])
}

/// The documents of a run of elements with their comments, the cursor after
/// them, and the offset at which the last of them ends.
pub struct Placed {
    pub docs: Seq<DocView>,
    pub cursor: nat,
    pub last_end: u32,
}

/// One element with its comments. The comments that end before it lead it;
/// those that start inside it are passed over; those that follow it on the
/// same line trail it.
pub open spec fn place(bytes: Seq<u8>, trivia: Seq<Comment>, cursor: nat, e: ElementView) -> Placed {
    let lead = leading_until(trivia, cursor, e.start);
    let inner = inside_until(trivia, lead, e.end);
    let trail = trailing_until(bytes, trivia, inner, e.end);
    Placed {
        docs: leading_docs(bytes, trivia, cursor, lead) + seq![e.doc] + trailing_docs(
            bytes,
            trivia,
            inner,
            trail,
        ),
        cursor: trail,
        last_end: if trail > inner {
            trivia[trail - 1].end
        } else {
            e.end
        },
    }
}

/// The elements in order, each with its comments, with a [`separator`]
/// between one and the next.
pub open spec fn sequence(
    bytes: Seq<u8>,
    trivia: Seq<Comment>,
    cursor: nat,
    elements: Seq<ElementView>,
) -> Placed
    decreases elements.len(),
{
    if elements.len() == 0 {
        Placed { docs: Seq::empty(), cursor, last_end: 0 }
    } else {
        let before = sequence(bytes, trivia, cursor, elements.drop_last());
        let gap = if elements.len() == 1 {
            Seq::empty()
        } else {
            separator(bytes, before.last_end)
        };
        let last = place(bytes, trivia, before.cursor, elements.last());
        Placed {
            docs: before.docs + gap + last.docs,
            cursor: last.cursor,
            last_end: last.last_end,
        }
    }
}

/// What was placed before the comments that close a program: what ends at
/// the end of the last element with its trailing comments, or nothing where
/// the program has no element.
pub open spec fn placed_before(placed: Placed, elements: Seq<ElementView>) -> Option<u32> {
    if elements.len() == 0 {
        None
    } else {
        Some(placed.last_end)
    }
}

/// The document of a program: its elements in sequence, then the comments
/// that are left, each on a line of its own and parted from what stands
/// before it as two elements are.
pub open spec fn program_doc(
    bytes: Seq<u8>,
    trivia: Seq<Comment>,
    cursor: nat,
    elements: Seq<ElementView>,
) -> DocView {
    let placed = sequence(bytes, trivia, cursor, elements);
    DocView::Concat(
        placed.docs + closing_docs(
            bytes,
            trivia,
            placed.cursor,
            trivia.len(),
            placed_before(placed, elements),
        ),
    )
}

/// Appends the documents of [`place`] to `parts`; returns its cursor and the
/// offset at which the element ends with its trailing comments.
pub fn place_one<'a>(
    parts: &mut Vec<Doc<'a>>,
    source: &'a str,
    trivia: &Vec<Comment>,
    cursor: usize,
    e: Element<'a>,
) -> (r: (usize, u32))
    requires
        cursor <= trivia.len(),
        trivia_valid(source.spec_bytes(), trivia@),
        element_valid(source.spec_bytes(), e@),
    ensures
        docs_view(final(parts)@) == docs_view(old(parts)@) + place(
            source.spec_bytes(),
            trivia@,
            cursor as nat,
            e@,
        ).docs,
        r.0 == place(source.spec_bytes(), trivia@, cursor as nat, e@).cursor,
        r.1 == place(source.spec_bytes(), trivia@, cursor as nat, e@).last_end,
        cursor <= r.0 <= trivia.len(),
        is_char_boundary(source.spec_bytes(), r.1 as int),
{
    let ghost bytes = source.spec_bytes();
    let ghost start = docs_view(parts@);
    let lead = leading_end(trivia, cursor, e.start);
    push_leading(parts, source, trivia, cursor, lead);
    let inner = inside_end(trivia, lead, e.end);
    let trail = trailing_end(source, trivia, inner, e.end);
    let last_end = if trail > inner {
        trivia[trail - 1].end
    } else {
        e.end
    };
    proof {
        lemma_docs_pushed(parts@, e.doc);
    }
    parts.push(e.doc);
    push_trailing(parts, source, trivia, inner, trail);
    proof {
        assert(docs_view(parts@) =~= start + place(bytes, trivia@, cursor as nat, e@).docs);
    }
    (trail, last_end)
}

/// Executable form of [`program_valid`].
pub fn check_program<'a>(source: &str, program: &Vec<Element<'a>>) -> (b: bool)
    ensures
        b == program_valid(source.spec_bytes(), elements_view(program@)),
{
    let ghost bytes = source.spec_bytes();
    let ghost elems = elements_view(program@);
    let n = source.as_bytes().len();
    let mut i: usize = 0;
    while i < program.len()
        invariant
            i <= program.len(),
            bytes == source.spec_bytes(),
            n == bytes.len(),
            elems == elements_view(program@),
            forall|k: int| 0 <= k < i ==> element_valid(bytes, #[trigger] elems[k]),
        decreases program.len() - i,
    {
        let e = &program[i];
        assert(elems[i as int] == e@);
        if !(e.start <= e.end && e.end as usize <= n && source.is_char_boundary(e.end as usize)) {
            assert(!element_valid(bytes, elems[i as int]));
            return false;
        }
        i = i + 1;
    }
    true
}

/// The document of a program: see [`program_doc`].
pub fn compose<'a>(
    source: &'a str,
    trivia: &Vec<Comment>,
    cursor: usize,
    program: Vec<Element<'a>>,
) -> (doc: Doc<'a>)
    requires
        cursor <= trivia.len(),
        trivia_valid(source.spec_bytes(), trivia@),
        program_valid(source.spec_bytes(), elements_view(program@)),
    ensures
        doc@ == program_doc(source.spec_bytes(), trivia@, cursor as nat, elements_view(program@)),
{
    let ghost bytes = source.spec_bytes();
    let ghost all = program@;
    let ghost elems = elements_view(program@);
    let bare = program.len() == 0;
    let mut parts: Vec<Doc<'a>> = Vec::new();
    let mut at = cursor;
    let mut last_end: u32 = 0;
    let mut first = true;
    proof {
        assert(elems.take(0) =~= Seq::<ElementView>::empty());
        assert(docs_view(parts@) =~= Seq::<DocView>::empty());
    }
    for e in it: program
        invariant
            it.seq() == all,
            elems == elements_view(all),
            bytes == source.spec_bytes(),
            trivia_valid(bytes, trivia@),
            program_valid(bytes, elems),
            at <= trivia.len(),
            first == (it.index() == 0),
            !first ==> is_char_boundary(bytes, last_end as int),
            sequence(bytes, trivia@, cursor as nat, elems.take(it.index() as int)) == (Placed {
                docs: docs_view(parts@),
                cursor: at as nat,
                last_end,
            }),
    {
        let ghost k = it.index() as int;
        let ghost before = docs_view(parts@);
        proof {
            assert(e == all[k]);
            assert(elems[k] == e@);
            assert(element_valid(bytes, elems[k]));
            assert(elems.take(k + 1).drop_last() =~= elems.take(k));
            assert(elems.take(k + 1).last() == elems[k]);
        }
        if !first {
            push_separator(&mut parts, source, last_end);
        }
        let ghost gap = if k == 0 {
            Seq::<DocView>::empty()
        } else {
            separator(bytes, last_end)
        };
        let ghost cursor_before = at;
        let (next, end) = place_one(&mut parts, source, trivia, at, e);
        proof {
            let one = place(bytes, trivia@, cursor_before as nat, elems[k]);
            assert(docs_view(parts@) =~= before + gap + one.docs);
        }
        at = next;
        last_end = end;
        first = false;
    }
    proof {
        assert(elems.take(all.len() as int) =~= elems);
    }
    let before = if bare {
        None
    } else {
        Some(last_end)
    };
    push_closing(&mut parts, source, trivia, at, trivia.len(), before);
    let doc = Doc::Concat(parts);
    proof {
        assert(doc_view(doc) == DocView::Concat(docs_view(parts@)));
    }
    doc
}

} // verus!
