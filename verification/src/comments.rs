//! The comments of the source text: which of them attach to a node, and the
//! documents that print them.

use crate::doc::{doc_view, docs_view, lemma_docs_view, Doc, DocView, LineKind};
use crate::source::{
    is_newline_at, is_next_line_empty, newline_at, next_line_empty, only_blanks,
    only_blanks_between, text_between,
};
use vstd::prelude::*;
use vstd::string::StringSliceAdditionalSpecFns;
use vstd::utf8::{decode_utf8, is_char_boundary};

verus! {

/// The two kinds of comment.
#[derive(Clone, Copy, Debug, PartialEq, Eq, Structural)]
pub enum CommentKind {
    /// A comment that runs to the end of its line.
    LineComment,
    /// A comment between delimiters, which may span lines.
    BlockComment,
}

/// A comment of the source text, by the byte offsets of its span.
#[derive(Clone, Copy, Debug, PartialEq, Eq, Structural)]
pub struct Comment {
    pub start: u32,
    pub end: u32,
    pub kind: CommentKind,
}

/// The span of the comment lies in the text and cuts no character.
pub open spec fn comment_valid(bytes: Seq<u8>, c: Comment) -> bool {
    &&& c.start <= c.end <= bytes.len()
    &&& is_char_boundary(bytes, c.start as int)
    &&& is_char_boundary(bytes, c.end as int)
}

/// Every comment is valid, and the comments start at rising offsets.
pub open spec fn trivia_valid(bytes: Seq<u8>, trivia: Seq<Comment>) -> bool {
    &&& forall|i: int| 0 <= i < trivia.len() ==> comment_valid(bytes, #[trigger] trivia[i])
    &&& forall|i: int| 0 < i < trivia.len() ==> trivia[i - 1].start < (#[trigger] trivia[i]).start
}

/// Executable form of [`comment_valid`].
pub fn check_comment(source: &str, c: Comment) -> (b: bool)
    ensures
        b == comment_valid(source.spec_bytes(), c),
{
    let n = source.as_bytes().len();
    c.start <= c.end && c.end as usize <= n && source.is_char_boundary(c.start as usize)
        && source.is_char_boundary(c.end as usize)
}

/// Executable form of [`trivia_valid`].
pub fn check_trivia(source: &str, trivia: &Vec<Comment>) -> (b: bool)
    ensures
        b == trivia_valid(source.spec_bytes(), trivia@),
{
    let ghost bytes = source.spec_bytes();
    let mut i: usize = 0;
    while i < trivia.len()
        invariant
            i <= trivia.len(),
            bytes == source.spec_bytes(),
            forall|k: int| 0 <= k < i ==> comment_valid(bytes, #[trigger] trivia@[k]),
            forall|k: int| 0 < k < i ==> trivia@[k - 1].start < (#[trigger] trivia@[k]).start,
        decreases trivia.len() - i,
    {
        if !check_comment(source, trivia[i]) {
            assert(!comment_valid(bytes, trivia@[i as int]));
            return false;
        }
        if i > 0 && trivia[i - 1].start >= trivia[i].start {
            assert(!(trivia@[i - 1].start < trivia@[i as int].start));
            return false;
        }
        i = i + 1;
    }
    true
}

/// The cursor after the comments that lead a node which starts at `start`:
/// those, from the cursor on, that end at or before it.
pub open spec fn leading_until(trivia: Seq<Comment>, cursor: nat, start: u32) -> nat
    decreases trivia.len() - cursor,
{
    if cursor < trivia.len() && trivia[cursor as int].end <= start {
        leading_until(trivia, cursor + 1, start)
    } else {
        cursor
    }
}

/// The cursor after the comments that lie inside a node which ends at `end`:
/// those, from the cursor on, that start before it.
pub open spec fn inside_until(trivia: Seq<Comment>, cursor: nat, end: u32) -> nat
    decreases trivia.len() - cursor,
{
    if cursor < trivia.len() && trivia[cursor as int].start < end {
        inside_until(trivia, cursor + 1, end)
    } else {
        cursor
    }
}

/// The cursor after the comments that trail what ends at `pos`: each follows
/// on the same line with only blanks between, and a line comment is the last.
pub open spec fn trailing_until(bytes: Seq<u8>, trivia: Seq<Comment>, cursor: nat, pos: u32) -> nat
    decreases trivia.len() - cursor,
{
    if cursor < trivia.len() {
        let c = trivia[cursor as int];
        if pos <= c.start && c.start <= bytes.len() && only_blanks(
            bytes,
            pos as int,
            c.start as int,
        ) {
            if c.kind == CommentKind::LineComment {
                cursor + 1
            } else {
                trailing_until(bytes, trivia, cursor + 1, c.end)
            }
        } else {
            cursor
        }
    } else {
        cursor
    }
}

/// Executable form of [`leading_until`].
pub fn leading_end(trivia: &Vec<Comment>, cursor: usize, start: u32) -> (to: usize)
    requires
        cursor <= trivia.len(),
    ensures
        to == leading_until(trivia@, cursor as nat, start),
        cursor <= to <= trivia.len(),
{
    let mut i = cursor;
    while i < trivia.len() && trivia[i].end <= start
        invariant
            cursor <= i <= trivia.len(),
            leading_until(trivia@, cursor as nat, start) == leading_until(
                trivia@,
                i as nat,
                start,
            ),
        decreases trivia.len() - i,
    {
        i = i + 1;
    }
    i
}

/// Executable form of [`inside_until`].
pub fn inside_end(trivia: &Vec<Comment>, cursor: usize, end: u32) -> (to: usize)
    requires
        cursor <= trivia.len(),
    ensures
        to == inside_until(trivia@, cursor as nat, end),
        cursor <= to <= trivia.len(),
{
    let mut i = cursor;
    while i < trivia.len() && trivia[i].start < end
        invariant
            cursor <= i <= trivia.len(),
            inside_until(trivia@, cursor as nat, end) == inside_until(trivia@, i as nat, end),
        decreases trivia.len() - i,
    {
        i = i + 1;
    }
    i
}

/// Executable form of [`trailing_until`].
pub fn trailing_end(source: &str, trivia: &Vec<Comment>, cursor: usize, pos: u32) -> (to: usize)
    requires
        cursor <= trivia.len(),
    ensures
        to == trailing_until(source.spec_bytes(), trivia@, cursor as nat, pos),
        cursor <= to <= trivia.len(),
{
    let n = source.as_bytes().len();
    let mut i = cursor;
    let mut at = pos;
    while i < trivia.len()
        invariant
            cursor <= i <= trivia.len(),
            n == source.spec_bytes().len(),
            trailing_until(source.spec_bytes(), trivia@, cursor as nat, pos) == trailing_until(
                source.spec_bytes(),
                trivia@,
                i as nat,
                at,
            ),
        decreases trivia.len() - i,
    {
        let c = trivia[i];
        if !(at <= c.start && c.start as usize <= n) {
            return i;
        }
        if !only_blanks_between(source, at, c.start) {
            return i;
        }
        i = i + 1;
        match c.kind {
            CommentKind::LineComment => {
                return i;
            },
            CommentKind::BlockComment => {
                at = c.end;
            },
        }
    }
    i
}

/// A hard line.
pub open spec fn hardline() -> DocView {
    DocView::Line(LineKind::Hard)
}

/// One space.
pub open spec fn space() -> DocView {
    DocView::Text(seq![' '])
}

/// The text of a comment, as the source has it.
pub open spec fn comment_view(bytes: Seq<u8>, c: Comment) -> DocView {
    DocView::Text(decode_utf8(bytes.subrange(c.start as int, c.end as int)))
}

/// What stands between two printed elements, the first of which ends at
/// `end`: one hard line, and one more where the source has a blank line
/// there. However many blank lines the source has, the output gets one.
pub open spec fn separator(bytes: Seq<u8>, end: u32) -> Seq<DocView> {
    if next_line_empty(bytes, end as int) {
        seq![hardline(), hardline()]
    } else {
        seq![hardline()]
    }
}

/// Whether a line break parts a leading comment from what follows it: it
/// does after a line comment, after a block comment that ends its line, and
/// where the look-ahead finds a blank line.
pub open spec fn ends_its_line(bytes: Seq<u8>, c: Comment) -> bool {
    c.kind == CommentKind::LineComment || newline_at(bytes, c.end as int) || next_line_empty(
        bytes,
        c.end as int,
    )
}

/// What prints a leading comment: its text, then what parts it from what
/// follows. That is the [`separator`] of two printed elements where a line
/// break parts them, and one space where the next thing stands on the line
/// of the comment.
pub open spec fn leading_part(bytes: Seq<u8>, c: Comment) -> Seq<DocView> {
    seq![comment_view(bytes, c)] + (if ends_its_line(bytes, c) {
        separator(bytes, c.end)
    } else {
        seq![space()]
    })
}

/// What prints a trailing comment: a space and the text of a block comment;
/// for a line comment the same as a line suffix, so that it stays on its
/// line, and a `BreakParent`, since nothing can follow it there.
pub open spec fn trailing_part(bytes: Seq<u8>, c: Comment) -> Seq<DocView> {
    if c.kind == CommentKind::BlockComment {
        seq![space(), comment_view(bytes, c)]
    } else {
        seq![
            DocView::LineSuffix(Box::new(DocView::Concat(seq![space(), comment_view(bytes, c)]))),
            DocView::BreakParent,
        ]
    }
}

/// The documents of the comments `trivia[from..to]`, printed as leading.
pub open spec fn leading_docs(bytes: Seq<u8>, trivia: Seq<Comment>, from: nat, to: nat) -> Seq<
    DocView,
>
    decreases to,
{
    if from >= to {
        Seq::empty()
    } else {
        leading_docs(bytes, trivia, from, (to - 1) as nat) + leading_part(bytes, trivia[to - 1])
    }
}

/// The documents of the comments `trivia[from..to]`, printed as trailing.
pub open spec fn trailing_docs(bytes: Seq<u8>, trivia: Seq<Comment>, from: nat, to: nat) -> Seq<
    DocView,
>
    decreases to,
{
    if from >= to {
        Seq::empty()
    } else {
        trailing_docs(bytes, trivia, from, (to - 1) as nat) + trailing_part(bytes, trivia[to - 1])
    }
}

/// What stands before comment `k` of the closing comments `trivia[from..]`:
/// the [`separator`] after what was placed before it. That is the comment
/// before it, or, for the first of them, what ends at `before`; nothing
/// stands before the first comment of a text that holds nothing else.
pub open spec fn closing_gap(
    bytes: Seq<u8>,
    trivia: Seq<Comment>,
    from: nat,
    k: nat,
    before: Option<u32>,
) -> Seq<DocView> {
    if k > from {
        separator(bytes, trivia[k - 1].end)
    } else {
        match before {
            Some(end) => separator(bytes, end),
            None => Seq::empty(),
        }
    }
}

/// The documents of the comments `trivia[from..to]`, each on a line of its
/// own, parted from what was placed before it as any two printed elements
/// are: see [`closing_gap`].
pub open spec fn closing_docs(
    bytes: Seq<u8>,
    trivia: Seq<Comment>,
    from: nat,
    to: nat,
    before: Option<u32>,
) -> Seq<DocView>
    decreases to,
{
    if from >= to {
        Seq::empty()
    } else {
        closing_docs(bytes, trivia, from, (to - 1) as nat, before) + closing_gap(
            bytes,
            trivia,
            from,
            (to - 1) as nat,
            before,
        ) + seq![comment_view(bytes, trivia[to - 1])]
    }
}

/// The views of a vector of documents after a push.
pub proof fn lemma_docs_pushed<'a>(docs: Seq<Doc<'a>>, d: Doc<'a>)
    ensures
        docs_view(docs.push(d)) == docs_view(docs).push(d@),
{
    lemma_docs_view(docs);
    lemma_docs_view(docs.push(d));
    assert(docs_view(docs.push(d)) =~= docs_view(docs).push(d@));
}

/// The document of one space.
pub fn space_doc<'a>() -> (d: Doc<'a>)
    ensures
        d@ == space(),
{
    proof {
        reveal_strlit(" ");
        assert(" "@ =~= seq![' ']);
    }
    Doc::Text(" ")
}

/// The document that prints the text of a comment.
pub fn comment_doc<'a>(source: &'a str, c: Comment) -> (d: Doc<'a>)
    requires
        comment_valid(source.spec_bytes(), c),
    ensures
        d@ == comment_view(source.spec_bytes(), c),
{
    Doc::Text(text_between(source, c.start, c.end))
}

/// The views of two runs of documents, one after the other.
pub proof fn lemma_docs_view_add<'a>(a: Seq<Doc<'a>>, b: Seq<Doc<'a>>)
    ensures
        docs_view(a + b) == docs_view(a) + docs_view(b),
{
    lemma_docs_view(a);
    lemma_docs_view(b);
    lemma_docs_view(a + b);
    assert(docs_view(a + b) =~= docs_view(a) + docs_view(b));
}

/// Appends the documents `more` to `parts`.
pub fn extend<'a>(parts: &mut Vec<Doc<'a>>, more: Vec<Doc<'a>>)
    ensures
        docs_view(final(parts)@) == docs_view(old(parts)@) + docs_view(more@),
{
    let mut more = more;
    proof {
        lemma_docs_view_add(parts@, more@);
    }
    parts.append(&mut more);
}

/// The documents of [`leading_part`].
pub fn leading_one<'a>(source: &'a str, c: Comment) -> (docs: Vec<Doc<'a>>)
    requires
        comment_valid(source.spec_bytes(), c),
    ensures
        docs_view(docs@) == leading_part(source.spec_bytes(), c),
{
    let mut docs: Vec<Doc<'a>> = Vec::new();
    assert(docs_view(docs@) =~= Seq::<DocView>::empty());
    let text = comment_doc(source, c);
    proof {
        lemma_docs_pushed(docs@, text);
    }
    docs.push(text);
    let ends_line = match c.kind {
        CommentKind::LineComment => true,
        CommentKind::BlockComment => is_newline_at(source, c.end) || is_next_line_empty(
            source,
            c.end,
        ),
    };
    if ends_line {
        push_separator(&mut docs, source, c.end);
    } else {
        let gap = space_doc();
        proof {
            lemma_docs_pushed(docs@, gap);
        }
        docs.push(gap);
    }
    assert(docs_view(docs@) =~= leading_part(source.spec_bytes(), c));
    docs
}

/// The documents of [`trailing_part`].
pub fn trailing_one<'a>(source: &'a str, c: Comment) -> (docs: Vec<Doc<'a>>)
    requires
        comment_valid(source.spec_bytes(), c),
    ensures
        docs_view(docs@) == trailing_part(source.spec_bytes(), c),
{
    let gap = space_doc();
    let text = comment_doc(source, c);
    let mut docs: Vec<Doc<'a>> = Vec::new();
    assert(docs_view(docs@) =~= Seq::<DocView>::empty());
    match c.kind {
        CommentKind::BlockComment => {
            proof {
                lemma_docs_pushed(docs@, gap);
                lemma_docs_pushed(docs@.push(gap), text);
            }
            docs.push(gap);
            docs.push(text);
        },
        CommentKind::LineComment => {
            let mut inner: Vec<Doc<'a>> = Vec::new();
            proof {
                lemma_docs_pushed(inner@, gap);
                lemma_docs_pushed(inner@.push(gap), text);
                assert(docs_view(inner@) =~= Seq::<DocView>::empty());
            }
            inner.push(gap);
            inner.push(text);
            let suffix = Doc::LineSuffix(Box::new(Doc::Concat(inner)));
            let stop = Doc::BreakParent;
            proof {
                assert(doc_view(suffix) == DocView::LineSuffix(
                    Box::new(doc_view(Doc::Concat(inner))),
                ));
                assert(doc_view(Doc::Concat(inner)) == DocView::Concat(docs_view(inner@)));
                assert(docs_view(inner@) =~= seq![space(), comment_view(source.spec_bytes(), c)]);
                assert(doc_view(stop) == DocView::BreakParent);
                lemma_docs_pushed(docs@, suffix);
                lemma_docs_pushed(docs@.push(suffix), stop);
            }
            docs.push(suffix);
            docs.push(stop);
        },
    }
    assert(docs_view(docs@) =~= trailing_part(source.spec_bytes(), c));
    docs
}

/// Appends [`leading_docs`] of `trivia[from..to]` to `parts`.
pub fn push_leading<'a>(
    parts: &mut Vec<Doc<'a>>,
    source: &'a str,
    trivia: &Vec<Comment>,
    from: usize,
    to: usize,
)
    requires
        from <= to <= trivia.len(),
        forall|k: int| from <= k < to ==> comment_valid(source.spec_bytes(), #[trigger] trivia@[k]),
    ensures
        docs_view(final(parts)@) == docs_view(old(parts)@) + leading_docs(
            source.spec_bytes(),
            trivia@,
            from as nat,
            to as nat,
        ),
{
    let ghost bytes = source.spec_bytes();
    let ghost start = docs_view(parts@);
    let mut i = from;
    assert(start =~= start + leading_docs(bytes, trivia@, from as nat, from as nat));
    while i < to
        invariant
            from <= i <= to <= trivia.len(),
            bytes == source.spec_bytes(),
            forall|k: int| from <= k < to ==> comment_valid(bytes, #[trigger] trivia@[k]),
            docs_view(parts@) == start + leading_docs(bytes, trivia@, from as nat, i as nat),
        decreases to - i,
    {
        let one = leading_one(source, trivia[i]);
        extend(parts, one);
        i = i + 1;
        assert(docs_view(parts@) =~= start + leading_docs(bytes, trivia@, from as nat, i as nat));
    }
}

/// Appends [`trailing_docs`] of `trivia[from..to]` to `parts`.
pub fn push_trailing<'a>(
    parts: &mut Vec<Doc<'a>>,
    source: &'a str,
    trivia: &Vec<Comment>,
    from: usize,
    to: usize,
)
    requires
        from <= to <= trivia.len(),
        forall|k: int| from <= k < to ==> comment_valid(source.spec_bytes(), #[trigger] trivia@[k]),
    ensures
        docs_view(final(parts)@) == docs_view(old(parts)@) + trailing_docs(
            source.spec_bytes(),
            trivia@,
            from as nat,
            to as nat,
        ),
{
    let ghost bytes = source.spec_bytes();
    let ghost start = docs_view(parts@);
    let mut i = from;
    assert(start =~= start + trailing_docs(bytes, trivia@, from as nat, from as nat));
    while i < to
        invariant
            from <= i <= to <= trivia.len(),
            bytes == source.spec_bytes(),
            forall|k: int| from <= k < to ==> comment_valid(bytes, #[trigger] trivia@[k]),
            docs_view(parts@) == start + trailing_docs(bytes, trivia@, from as nat, i as nat),
        decreases to - i,
    {
        let one = trailing_one(source, trivia[i]);
        extend(parts, one);
        i = i + 1;
        assert(docs_view(parts@) =~= start + trailing_docs(bytes, trivia@, from as nat, i as nat));
    }
}

/// Appends [`separator`] to `parts`.
pub fn push_separator<'a>(parts: &mut Vec<Doc<'a>>, source: &'a str, end: u32)
    requires
        is_char_boundary(source.spec_bytes(), end as int),
    ensures
        docs_view(final(parts)@) == docs_view(old(parts)@) + separator(source.spec_bytes(), end),
{
    let line = Doc::Line(LineKind::Hard);
    proof {
        lemma_docs_pushed(parts@, line);
    }
    parts.push(line);
    if is_next_line_empty(source, end) {
        let blank = Doc::Line(LineKind::Hard);
        proof {
            lemma_docs_pushed(parts@, blank);
        }
        parts.push(blank);
    }
    assert(docs_view(parts@) =~= docs_view(old(parts)@) + separator(source.spec_bytes(), end));
}

/// Appends [`closing_docs`] of `trivia[from..to]` to `parts`.
pub fn push_closing<'a>(
    parts: &mut Vec<Doc<'a>>,
    source: &'a str,
    trivia: &Vec<Comment>,
    from: usize,
    to: usize,
    before: Option<u32>,
)
    requires
        from <= to <= trivia.len(),
        forall|k: int| from <= k < to ==> comment_valid(source.spec_bytes(), #[trigger] trivia@[k]),
        before matches Some(end) ==> is_char_boundary(source.spec_bytes(), end as int),
    ensures
        docs_view(final(parts)@) == docs_view(old(parts)@) + closing_docs(
            source.spec_bytes(),
            trivia@,
            from as nat,
            to as nat,
            before,
        ),
{
    let ghost bytes = source.spec_bytes();
    let ghost start = docs_view(parts@);
    let mut i = from;
    assert(start =~= start + closing_docs(bytes, trivia@, from as nat, from as nat, before));
    while i < to
        invariant
            from <= i <= to <= trivia.len(),
            bytes == source.spec_bytes(),
            forall|k: int| from <= k < to ==> comment_valid(bytes, #[trigger] trivia@[k]),
            before matches Some(end) ==> is_char_boundary(bytes, end as int),
            docs_view(parts@) == start + closing_docs(
                bytes,
                trivia@,
                from as nat,
                i as nat,
                before,
            ),
        decreases to - i,
    {
        let ghost so_far = docs_view(parts@);
        if i > from {
            assert(comment_valid(bytes, trivia@[i - 1]));
            push_separator(parts, source, trivia[i - 1].end);
        } else {
            match before {
                Some(end) => {
                    push_separator(parts, source, end);
                },
                None => {},
            }
        }
        assert(docs_view(parts@) =~= so_far + closing_gap(
            bytes,
            trivia@,
            from as nat,
            i as nat,
            before,
        ));
        let text = comment_doc(source, trivia[i]);
        proof {
            lemma_docs_pushed(parts@, text);
        }
        parts.push(text);
        i = i + 1;
        assert(docs_view(parts@) =~= start + closing_docs(
            bytes,
            trivia@,
            from as nat,
            i as nat,
            before,
        ));
    }
}

} // verus!
