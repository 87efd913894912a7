//! The options of the printer and what each of them does.

use crate::doc::{Doc, DocView};
use crate::layout::Layout;
use vstd::prelude::*;
use vstd::slice::slice_index_get;
use vstd::string::StringSliceAdditionalSpecFns;

verus! {

/// Where a trailing comma is printed in a list that breaks.
#[derive(Clone, Copy, Debug, PartialEq, Eq, Structural)]
pub enum TrailingComma {
    /// Wherever a trailing comma can stand.
    All,
    /// Only where the fifth edition of the language allows one.
    ES5,
    /// Nowhere.
    Never,
}

impl TrailingComma {
    /// Whether this is `All`.
    pub fn is_all(self) -> (b: bool)
        ensures
            b == (self == TrailingComma::All),
    {
        match self {
            TrailingComma::All => true,
            _ => false,
        }
    }

    /// Whether this is `ES5`.
    pub fn is_es5(self) -> (b: bool)
        ensures
            b == (self == TrailingComma::ES5),
    {
        match self {
            TrailingComma::ES5 => true,
            _ => false,
        }
    }

    /// Whether this is `Never`.
    pub fn is_none(self) -> (b: bool)
        ensures
            b == (self == TrailingComma::Never),
    {
        match self {
            TrailingComma::Never => true,
            _ => false,
        }
    }

    /// Whether a list gets a trailing comma. `level_all` says that the comma
    /// stands where only `All` permits one, as after a rest parameter.
    pub open spec fn prints_comma(self, level_all: bool) -> bool {
        self == TrailingComma::All || (self == TrailingComma::ES5 && !level_all)
    }
}

/// The comma that ends a list: a comma where the enclosing group breaks and
/// nothing where it is flat, or no such node at all where the policy prints
/// no comma.
pub open spec fn comma_view(policy: TrailingComma, level_all: bool) -> DocView {
    if policy.prints_comma(level_all) {
        DocView::IfBreak {
            when_break: Box::new(DocView::Text(seq![','])),
            when_flat: Box::new(DocView::Text(Seq::empty())),
            target_group: None,
        }
    } else {
        DocView::Text(Seq::empty())
    }
}

/// The document of [`comma_view`].
pub fn trailing_comma_doc<'a>(policy: TrailingComma, level_all: bool) -> (d: Doc<'a>)
    ensures
        d@ == comma_view(policy, level_all),
{
    proof {
        reveal_strlit(",");
        reveal_strlit("");
        assert(","@ =~= seq![',']);
        assert(""@ =~= Seq::<char>::empty());
    }
    if policy.is_all() || (policy.is_es5() && !level_all) {
        Doc::if_break(Doc::text(","), Doc::text(""), None)
    } else {
        Doc::text("")
    }
}

/// Whether a single arrow-function parameter is parenthesised.
#[derive(Clone, Copy, Debug, PartialEq, Eq, Structural)]
pub enum ArrowParens {
    Always,
    Avoid,
}

/// When the keys of an object are quoted.
#[derive(Clone, Copy, Debug, PartialEq, Eq, Structural)]
pub enum QuoteProps {
    AsNeeded,
    Consistent,
    Preserve,
}

/// The line break of the output.
#[derive(Clone, Copy, Debug, PartialEq, Eq, Structural)]
pub enum EndOfLine {
    /// Line feed.
    Lf,
    /// Carriage return, then line feed.
    Crlf,
    /// Carriage return.
    Cr,
    /// The first line break of the source text; line feed where it has none.
    Auto,
}

/// The line break that a text uses first, looking from byte `from` on: what
/// follows its first carriage return decides, and a text without one uses
/// line feeds.
pub open spec fn first_line_break(bytes: Seq<u8>, from: nat) -> EndOfLine
    decreases bytes.len() - from,
{
    if from >= bytes.len() {
        EndOfLine::Lf
    } else if bytes[from as int] == 13 {
        if from + 1 < bytes.len() && bytes[from as int + 1] == 10 {
            EndOfLine::Crlf
        } else {
            EndOfLine::Cr
        }
    } else {
        first_line_break(bytes, from + 1)
    }
}

impl EndOfLine {
    /// This line break, with `Auto` settled by the source text.
    pub open spec fn settled(self, source: Seq<u8>) -> EndOfLine {
        if self == EndOfLine::Auto {
            first_line_break(source, 0)
        } else {
            self
        }
    }

    /// The characters of this line break. `Auto` stands for a line feed until
    /// a source text settles it.
    pub open spec fn chars(self) -> Seq<char> {
        match self {
            EndOfLine::Crlf => seq!['\r', '\n'],
            EndOfLine::Cr => seq!['\r'],
            EndOfLine::Lf => seq!['\n'],
            EndOfLine::Auto => seq!['\n'],
        }
    }

    /// Executable form of [`EndOfLine::settled`].
    pub fn settle(self, source: &str) -> (eol: EndOfLine)
        ensures
            eol == self.settled(source.spec_bytes()),
            eol != EndOfLine::Auto,
    {
        match self {
            EndOfLine::Auto => {},
            _ => {
                return self;
            },
        }
        let bytes = source.as_bytes();
        let n = bytes.len();
        let mut i: usize = 0;
        while i < n
            invariant
                self == EndOfLine::Auto,
                i <= n,
                n == bytes@.len(),
                bytes@ == source.spec_bytes(),
                first_line_break(bytes@, 0) == first_line_break(bytes@, i as nat),
            decreases n - i,
        {
            if *slice_index_get(bytes, i) == 13 {
                if i + 1 < n && *slice_index_get(bytes, i + 1) == 10 {
                    return EndOfLine::Crlf;
                }
                return EndOfLine::Cr;
            }
            i = i + 1;
        }
        EndOfLine::Lf
    }

    /// Appends the characters of this line break to `out`.
    pub fn write_to(self, out: &mut Vec<char>)
        ensures
            final(out)@ == old(out)@ + self.chars(),
    {
        match self {
            EndOfLine::Crlf => {
                out.push('\r');
                out.push('\n');
            },
            EndOfLine::Cr => {
                out.push('\r');
            },
            EndOfLine::Lf | EndOfLine::Auto => {
                out.push('\n');
            },
        }
        assert(out@ =~= old(out)@ + self.chars());
    }
}

/// Why a set of options is refused.
#[derive(Clone, Copy, Debug, PartialEq, Eq, Structural)]
pub enum OptionsError {
    /// The line width is zero.
    ZeroPrintWidth,
    /// The tab width is zero.
    ZeroTabWidth,
}

/// The options of the printer.
#[derive(Clone, Copy, Debug, PartialEq, Eq)]
pub struct PrettierOptions {
    /// The column budget of a line.
    pub print_width: usize,
    /// The columns of one tab stop.
    pub tab_width: usize,
    /// Indent with tabs instead of spaces.
    pub use_tabs: bool,
    /// When the keys of an object are quoted.
    pub quote_props: QuoteProps,
    /// Where a trailing comma is printed.
    pub trailing_comma: TrailingComma,
    /// Print spaces inside the braces of an object.
    pub bracket_spacing: bool,
    /// Whether a single arrow-function parameter is parenthesised.
    pub arrow_parens: ArrowParens,
    /// The line break of the output.
    pub end_of_line: EndOfLine,
}

impl PrettierOptions {
    /// Both widths are positive.
    pub open spec fn valid(self) -> bool {
        self.print_width > 0 && self.tab_width > 0
    }

    /// What is wrong with these options, the line width first.
    pub open spec fn fault(self) -> Option<OptionsError> {
        if self.print_width == 0 {
            Some(OptionsError::ZeroPrintWidth)
        } else if self.tab_width == 0 {
            Some(OptionsError::ZeroTabWidth)
        } else {
            None
        }
    }

    /// Accepts the options or says which of them is wrong.
    pub fn validate(&self) -> (r: Result<(), OptionsError>)
        ensures
            r is Ok <==> self.valid(),
            r is Err ==> self.fault() == Some(r->Err_0),
    {
        if self.print_width == 0 {
            Err(OptionsError::ZeroPrintWidth)
        } else if self.tab_width == 0 {
            Err(OptionsError::ZeroTabWidth)
        } else {
            Ok(())
        }
    }

    /// What the printer reads of these options on a source text.
    pub open spec fn layout(self, source: Seq<u8>) -> Layout {
        Layout {
            print_width: self.print_width as nat,
            tab_width: self.tab_width as nat,
            use_tabs: self.use_tabs,
            newline: self.end_of_line.settled(source).chars(),
        }
    }
}

impl Default for PrettierOptions {
    /// Eighty columns, two-space indentation, trailing commas everywhere,
    /// line feeds.
    fn default() -> (o: PrettierOptions)
        ensures
            o.valid(),
            o.print_width == 80,
            o.tab_width == 2,
            !o.use_tabs,
            o.quote_props == QuoteProps::AsNeeded,
            o.trailing_comma == TrailingComma::All,
            o.bracket_spacing,
            o.arrow_parens == ArrowParens::Always,
            o.end_of_line == EndOfLine::Lf,
    {
        PrettierOptions {
            print_width: 80,
            tab_width: 2,
            use_tabs: false,
            quote_props: QuoteProps::AsNeeded,
            trailing_comma: TrailingComma::All,
            bracket_spacing: true,
            arrow_parens: ArrowParens::Always,
            end_of_line: EndOfLine::Lf,
        }
    }
}

} // verus!
