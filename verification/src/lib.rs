//! A Wadler-style pretty printer core: the document tree, the pass that marks
//! forced breaks, the width-bounded renderer, and the logic that puts comments
//! and blank lines of the source text back into the layout.
//!
//! A caller turns each node of its program into a document ([`doc`]) and
//! hands the nodes over as elements ([`reconcile`]). [`Prettier`] places the
//! comments ([`comments`]) and the blank lines ([`source`]) between them,
//! checks the composed document ([`validate`]), marks the groups that must
//! break ([`propagate`]) and prints the text ([`printer`]).
//!
//! The printer is specified as a state machine ([`machine`]) that asks a
//! width check ([`fits`]) for the mode of each group; [`layout`] holds what
//! the two share. [`flat`] relates both to the flat rendering of a document,
//! [`shape`] says what a document without a defect looks like,
//! and [`laws`] states what holds of the whole: that equal inputs give equal
//! text, that a group which fits is flat and stays on its line, that blank
//! lines are kept one at a time, and where a trailing comma comes out.

pub mod comments;
pub mod doc;
pub mod fits;
pub mod flat;
pub mod laws;
pub mod layout;
pub mod machine;
pub mod options;
pub mod printer;
pub mod propagate;
pub mod reconcile;
pub mod shape;
pub mod source;
pub mod validate;

use crate::comments::{
    check_trivia, closing_docs, leading_docs, leading_end, leading_until, push_closing,
    push_leading, push_trailing, trailing_docs, trailing_end, trailing_until, trivia_valid,
    Comment,
};
use crate::doc::{docs_view, Doc, DocView};
use crate::machine::rendered;
use crate::options::OptionsError;
pub use crate::options::{ArrowParens, EndOfLine, PrettierOptions, QuoteProps, TrailingComma};
use crate::printer::{lemma_marked_is_printable, print, Settings};
use crate::propagate::{propagate_breaks, propagated};
use crate::reconcile::{
    check_program, compose, elements_view, program_doc, program_valid, Element, ElementView,
};
use crate::shape::{fills_alternate, handles, law_well_formed_shape};
use crate::source::next_line_empty;
use crate::validate::{check, verdict, well_formed, Defect};
use vstd::prelude::*;
use vstd::string::StringSliceAdditionalSpecFns;
use vstd::utf8::is_char_boundary;

verus! {

/// Why a program is not formatted.
#[derive(Clone, Copy, Debug, PartialEq, Eq, Structural)]
pub enum FormatError {
    /// The options are refused.
    Options(OptionsError),
    /// The comments do not start at rising offsets, or one of them leaves
    /// the source text or cuts a character.
    Trivia,
    /// An element leaves the source text or ends inside a character.
    Program,
    /// The composed document is refused.
    Document(Defect),
}

/// The text of a program: its document, with the forced breaks marked,
/// printed in the layout of the options.
pub open spec fn formatted(
    source: Seq<u8>,
    trivia: Seq<Comment>,
    cursor: nat,
    options: PrettierOptions,
    program: Seq<ElementView>,
) -> Seq<char> {
    rendered(propagated(program_doc(source, trivia, cursor, program)), options.layout(source))
}

/// What [`Prettier::format`] gives: the first of the reasons to refuse that
/// holds, or else the text.
pub open spec fn outcome(
    source: Seq<u8>,
    trivia: Seq<Comment>,
    cursor: nat,
    options: PrettierOptions,
    program: Seq<ElementView>,
) -> Result<Seq<char>, FormatError> {
    if options.fault() is Some {
        Err(FormatError::Options(options.fault()->0))
    } else if !(trivia_valid(source, trivia) && cursor <= trivia.len()) {
        Err(FormatError::Trivia)
    } else if !program_valid(source, program) {
        Err(FormatError::Program)
    } else {
        match verdict(program_doc(source, trivia, cursor, program), options.tab_width as nat) {
            Err(defect) => Err(FormatError::Document(defect)),
            Ok(_) => Ok(formatted(source, trivia, cursor, options, program)),
        }
    }
}

/// What [`format_doc`] gives: the reason to refuse the options or the
/// document, or else the text of the document with its forced breaks marked.
pub open spec fn doc_outcome(doc: DocView, source: Seq<u8>, options: PrettierOptions) -> Result<
    Seq<char>,
    FormatError,
> {
    if options.fault() is Some {
        Err(FormatError::Options(options.fault()->0))
    } else {
        match verdict(doc, options.tab_width as nat) {
            Err(defect) => Err(FormatError::Document(defect)),
            Ok(_) => Ok(rendered(propagated(doc), options.layout(source))),
        }
    }
}

/// Checks a document, marks its forced breaks and prints it. The source
/// text only settles the line break of `EndOfLine::Auto`.
pub fn format_doc<'a>(doc: Doc<'a>, source_text: &str, options: PrettierOptions) -> (r: Result<
    String,
    FormatError,
>)
    ensures
        match r {
            Ok(text) => doc_outcome(doc@, source_text.spec_bytes(), options) == Ok::<
                Seq<char>,
                FormatError,
            >(text@),
            Err(e) => doc_outcome(doc@, source_text.spec_bytes(), options) == Err::<
                Seq<char>,
                FormatError,
            >(e),
        },
{
    match options.validate() {
        Err(e) => {
            return Err(FormatError::Options(e));
        },
        Ok(_) => {},
    }
    let mut doc = doc;
    match check(&doc, options.tab_width) {
        Err(defect) => {
            return Err(FormatError::Document(defect));
        },
        Ok(_) => {},
    }
    proof {
        lemma_marked_is_printable(doc@, options.tab_width as nat);
    }
    propagate_breaks(&mut doc);
    let settings = Settings {
        print_width: options.print_width,
        tab_width: options.tab_width,
        use_tabs: options.use_tabs,
        newline: options.end_of_line.settle(source_text),
    };
    Ok(print(&doc, &settings))
}

/// A formatter for one source text: the text, its comments in order, a
/// cursor into them, and the options.
pub struct Prettier<'a> {
    source_text: &'a str,
    options: PrettierOptions,
    /// The comments, which are placed one by one as the cursor passes them.
    trivias: Vec<Comment>,
    cursor: usize,
}

impl<'a> Prettier<'a> {
    /// The bytes of the source text.
    pub closed spec fn source(&self) -> Seq<u8> {
        self.source_text.spec_bytes()
    }

    /// The comments of the source text.
    pub closed spec fn trivia(&self) -> Seq<Comment> {
        self.trivias@
    }

    /// The number of comments that are placed.
    pub closed spec fn cursor(&self) -> nat {
        self.cursor as nat
    }

    /// The options.
    pub closed spec fn options(&self) -> PrettierOptions {
        self.options
    }

    /// The options are valid, the comments are valid in the source text, and
    /// the cursor points into them.
    pub open spec fn valid(&self) -> bool {
        &&& self.options().valid()
        &&& trivia_valid(self.source(), self.trivia())
        &&& self.cursor() <= self.trivia().len()
    }

    /// A formatter for `source_text` with its comments `trivias`, none of
    /// them placed yet.
    pub fn new(source_text: &'a str, trivias: Vec<Comment>, options: PrettierOptions) -> (p: Self)
        ensures
            p.source() == source_text.spec_bytes(),
            p.trivia() == trivias@,
            p.cursor() == 0,
            p.options() == options,
    {
        Prettier { source_text, options, trivias, cursor: 0 }
    }

    /// Executable form of [`Prettier::valid`].
    pub fn is_valid(&self) -> (b: bool)
        ensures
            b == self.valid(),
    {
        self.options.validate().is_ok() && check_trivia(self.source_text, &self.trivias)
            && self.cursor <= self.trivias.len()
    }

    /// The program as one document, with every comment from the cursor on
    /// placed. The document has no defect.
    pub fn doc(self, program: Vec<Element<'a>>) -> (doc: Doc<'a>)
        requires
            self.valid(),
            program_valid(self.source(), elements_view(program@)),
            verdict(
                program_doc(self.source(), self.trivia(), self.cursor(), elements_view(program@)),
                self.options().tab_width as nat,
            ) is Ok,
        ensures
            doc@ == program_doc(
                self.source(),
                self.trivia(),
                self.cursor(),
                elements_view(program@),
            ),
            well_formed(doc@),
            fills_alternate(doc@),
            handles(doc@).no_duplicates(),
    {
        let doc = compose(self.source_text, &self.trivias, self.cursor, program);
        proof {
            law_well_formed_shape(doc@);
        }
        doc
    }

    /// The program as one document, or the reason why it is refused: the
    /// reason for which [`Prettier::format`] would refuse it. This asks
    /// nothing of its caller.
    pub fn try_doc(self, program: Vec<Element<'a>>) -> (r: Result<Doc<'a>, FormatError>)
        ensures
            match r {
                Ok(doc) => outcome(
                    self.source(),
                    self.trivia(),
                    self.cursor(),
                    self.options(),
                    elements_view(program@),
                ) is Ok && well_formed(doc@) && fills_alternate(doc@) && handles(
                    doc@,
                ).no_duplicates() && doc@ == program_doc(
                    self.source(),
                    self.trivia(),
                    self.cursor(),
                    elements_view(program@),
                ),
                Err(e) => outcome(
                    self.source(),
                    self.trivia(),
                    self.cursor(),
                    self.options(),
                    elements_view(program@),
                ) == Err::<Seq<char>, FormatError>(e),
            },
    {
        match self.options.validate() {
            Err(e) => {
                return Err(FormatError::Options(e));
            },
            Ok(_) => {},
        }
        if !(check_trivia(self.source_text, &self.trivias) && self.cursor <= self.trivias.len()) {
            return Err(FormatError::Trivia);
        }
        if !check_program(self.source_text, &program) {
            return Err(FormatError::Program);
        }
        let doc = compose(self.source_text, &self.trivias, self.cursor, program);
        match check(&doc, self.options.tab_width) {
            Err(defect) => Err(FormatError::Document(defect)),
            Ok(_) => {
                proof {
                    law_well_formed_shape(doc@);
                }
                Ok(doc)
            },
        }
    }

    /// The program as text.
    pub fn build(self, program: Vec<Element<'a>>) -> (text: String)
        requires
            self.valid(),
            program_valid(self.source(), elements_view(program@)),
            verdict(
                program_doc(self.source(), self.trivia(), self.cursor(), elements_view(program@)),
                self.options().tab_width as nat,
            ) is Ok,
        ensures
            text@ == formatted(
                self.source(),
                self.trivia(),
                self.cursor(),
                self.options(),
                elements_view(program@),
            ),
    {
        let mut doc = compose(self.source_text, &self.trivias, self.cursor, program);
        proof {
            lemma_marked_is_printable(doc@, self.options.tab_width as nat);
        }
        propagate_breaks(&mut doc);
        let settings = Settings {
            print_width: self.options.print_width,
            tab_width: self.options.tab_width,
            use_tabs: self.options.use_tabs,
            newline: self.options.end_of_line.settle(self.source_text),
        };
        print(&doc, &settings)
    }

    /// The program as text, or the reason why it is refused. This asks
    /// nothing of its caller.
    pub fn format(self, program: Vec<Element<'a>>) -> (r: Result<String, FormatError>)
        ensures
            match r {
                Ok(text) => outcome(
                    self.source(),
                    self.trivia(),
                    self.cursor(),
                    self.options(),
                    elements_view(program@),
                ) == Ok::<Seq<char>, FormatError>(text@),
                Err(e) => outcome(
                    self.source(),
                    self.trivia(),
                    self.cursor(),
                    self.options(),
                    elements_view(program@),
                ) == Err::<Seq<char>, FormatError>(e),
            },
    {
        match self.options.validate() {
            Err(e) => {
                return Err(FormatError::Options(e));
            },
            Ok(_) => {},
        }
        if !(check_trivia(self.source_text, &self.trivias) && self.cursor <= self.trivias.len()) {
            return Err(FormatError::Trivia);
        }
        if !check_program(self.source_text, &program) {
            return Err(FormatError::Program);
        }
        let mut doc = compose(self.source_text, &self.trivias, self.cursor, program);
        match check(&doc, self.options.tab_width) {
            Err(defect) => {
                return Err(FormatError::Document(defect));
            },
            Ok(_) => {},
        }
        proof {
            lemma_marked_is_printable(doc@, self.options.tab_width as nat);
        }
        propagate_breaks(&mut doc);
        let settings = Settings {
            print_width: self.options.print_width,
            tab_width: self.options.tab_width,
            use_tabs: self.options.use_tabs,
            newline: self.options.end_of_line.settle(self.source_text),
        };
        Ok(print(&doc, &settings))
    }

    /// Whether a list gets a trailing comma where the fifth edition of the
    /// language allows one.
    pub fn should_print_es5_comma(&self) -> (b: bool)
        ensures
            b == self.options().trailing_comma.prints_comma(false),
    {
        self.should_print_comma_impl(false)
    }

    /// Whether a list gets a trailing comma where only `All` permits one.
    pub fn should_print_all_comma(&self) -> (b: bool)
        ensures
            b == self.options().trailing_comma.prints_comma(true),
    {
        self.should_print_comma_impl(true)
    }

    /// Whether a list gets a trailing comma; `level_all` says that it stands
    /// where only `All` permits one.
    pub fn should_print_comma_impl(&self, level_all: bool) -> (b: bool)
        ensures
            b == self.options().trailing_comma.prints_comma(level_all),
    {
        let trailing_comma = self.options.trailing_comma;
        trailing_comma.is_all() || (trailing_comma.is_es5() && !level_all)
    }

    /// Whether a blank line follows what ends at byte `end`.
    pub fn is_next_line_empty(&self, end: u32) -> (b: bool)
        requires
            is_char_boundary(self.source(), end as int),
        ensures
            b == next_line_empty(self.source(), end as int),
    {
        crate::source::is_next_line_empty(self.source_text, end)
    }

    /// Places the comments that lead a node which starts at `start`, and
    /// returns the documents that print them.
    pub fn print_leading_comments(&mut self, start: u32) -> (docs: Vec<Doc<'a>>)
        requires
            old(self).valid(),
        ensures
            final(self).valid(),
            final(self).source() == old(self).source(),
            final(self).trivia() == old(self).trivia(),
            final(self).options() == old(self).options(),
            final(self).cursor() == leading_until(old(self).trivia(), old(self).cursor(), start),
            docs_view(docs@) == leading_docs(
                old(self).source(),
                old(self).trivia(),
                old(self).cursor(),
                final(self).cursor(),
            ),
    {
        let to = leading_end(&self.trivias, self.cursor, start);
        let mut docs: Vec<Doc<'a>> = Vec::new();
        assert(docs_view(docs@) =~= Seq::<DocView>::empty());
        push_leading(&mut docs, self.source_text, &self.trivias, self.cursor, to);
        self.cursor = to;
        docs
    }

    /// Places the comments that trail what ends at `end`, and returns the
    /// documents that print them.
    pub fn print_trailing_comments(&mut self, end: u32) -> (docs: Vec<Doc<'a>>)
        requires
            old(self).valid(),
        ensures
            final(self).valid(),
            final(self).source() == old(self).source(),
            final(self).trivia() == old(self).trivia(),
            final(self).options() == old(self).options(),
            final(self).cursor() == trailing_until(
                old(self).source(),
                old(self).trivia(),
                old(self).cursor(),
                end,
            ),
            docs_view(docs@) == trailing_docs(
                old(self).source(),
                old(self).trivia(),
                old(self).cursor(),
                final(self).cursor(),
            ),
    {
        let to = trailing_end(self.source_text, &self.trivias, self.cursor, end);
        let mut docs: Vec<Doc<'a>> = Vec::new();
        assert(docs_view(docs@) =~= Seq::<DocView>::empty());
        push_trailing(&mut docs, self.source_text, &self.trivias, self.cursor, to);
        self.cursor = to;
        docs
    }

    /// Places the comments that dangle in a node which ends at `end` and
    /// holds nothing else, and returns the documents that print them, each
    /// comment on a line of its own, with the blank lines between them kept
    /// one at a time.
    pub fn print_dangling_comments(&mut self, end: u32) -> (docs: Vec<Doc<'a>>)
        requires
            old(self).valid(),
        ensures
            final(self).valid(),
            final(self).source() == old(self).source(),
            final(self).trivia() == old(self).trivia(),
            final(self).options() == old(self).options(),
            final(self).cursor() == leading_until(old(self).trivia(), old(self).cursor(), end),
            docs_view(docs@) == closing_docs(
                old(self).source(),
                old(self).trivia(),
                old(self).cursor(),
                final(self).cursor(),
                None,
            ),
    {
        let to = leading_end(&self.trivias, self.cursor, end);
        let mut docs: Vec<Doc<'a>> = Vec::new();
        assert(docs_view(docs@) =~= Seq::<DocView>::empty());
        push_closing(&mut docs, self.source_text, &self.trivias, self.cursor, to, None);
        self.cursor = to;
        docs
    }
}

} // verus!
