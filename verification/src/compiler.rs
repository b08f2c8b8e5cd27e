//! Declaration parser: an explicit finite-state machine that consumes one
//! token at a time, builds a parameter frame per function, and records
//! which of `main`'s parameters are malleable in a bitmap.
//!
//! `spec_step` is the mathematical transition table; `push_token` is proved
//! to implement it, leaving the state untouched whenever it reports an
//! error. `assembled` is the mathematical form of the declaration section
//! that `compile` serializes.

use crate::lexer::{Keyword, Position, Symbol, Token, TokenKind, TokenKindView};
use vstd::prelude::*;

verus! {

/// The type a parameter is declared with. `Any` is the transient default
/// between the parameter's identifier and its `:` annotation; a parameter
/// that never receives an annotation keeps it.
#[derive(Debug, PartialEq, Eq, Clone, Copy)]
pub enum ValueType {
    Any,
    U8,
    U16,
    U32,
    U64,
    U128,
    UBIG,
    I8,
    I16,
    I32,
    I64,
    I128,
    IBIG,
    F32,
    F64,
    Decimal,
    Address,
    Asset,
}

/// The grammatical expectation the parser is in between two tokens.
#[derive(Debug, PartialEq, Eq, Clone, Copy)]
pub enum CompilerState {
    /// Expecting the `function` keyword that opens a declaration.
    AwaitingDeclaration,
    /// Expecting the declared function's identifier.
    AwaitingFunctionIdentifier,
    /// Expecting `(` to open the parameter list.
    AwaitingLeftParen,
    /// Expecting a parameter (possibly marked `malleable` inside `main`),
    /// or `)` closing the list.
    AwaitingParamOrClose,
    /// Expecting the identifier of a parameter just marked `malleable`.
    AwaitingParamIdentifier,
    /// After a parameter identifier: expecting `:`, `,`, or `)`.
    AwaitingColonCommaOrClose,
    /// After a `:`: expecting one of the type keywords.
    AwaitingParamType,
    /// After a type keyword: expecting `,` or `)`.
    AwaitingCommaOrClose,
    /// Expecting the `{` that opens the function's body.
    AwaitingBodyBrace,
}

/// One declared parameter: its identifier and its recorded type.
#[derive(Debug, PartialEq, Eq, Clone)]
pub struct Param {
    pub name: String,
    pub vtype: ValueType,
}

/// The accumulating parameter list of one function. Index 0 is reserved
/// for `main`; other functions count from 1 in declaration order.
#[derive(Debug, PartialEq, Eq, Clone)]
pub struct Frame {
    pub index: usize,
    pub parameters: Vec<Param>,
}

/// Mathematical counterpart of `Param`.
#[verifier::ext_equal]
pub struct ParamView {
    pub name: Seq<char>,
    pub vtype: ValueType,
}

/// Mathematical counterpart of `Frame`.
#[verifier::ext_equal]
pub struct FrameView {
    pub index: nat,
    pub params: Seq<ParamView>,
}

impl View for Param {
    type V = ParamView;

    open spec fn view(&self) -> ParamView {
        ParamView { name: self.name@, vtype: self.vtype }
    }
}

impl View for Frame {
    type V = FrameView;

    open spec fn view(&self) -> FrameView {
        FrameView {
            index: self.index as nat,
            params: self.parameters@.map_values(|p: Param| p@),
        }
    }
}

/// What went wrong, with the position of the offending token. The
/// assembly-time `MissingMainDeclaration` carries no position: no token
/// triggers it.
#[derive(Debug, PartialEq, Eq, Clone)]
pub enum CompilerErr {
    ExpectedFunctionDeclaration(Position),
    ExpectedIdentifier(Position),
    ExpectedLeftParenthesis(Position),
    ExpectedColonCommaOrRightParen(Position),
    ExpectedCommaOrRightParen(Position),
    ExpectedTypeKeyword(Position),
    ExpectedLeftBrace(Position),
    DuplicateMainDeclaration(Position),
    MissingMainDeclaration,
}

/// The kind of a parse error, separated from the position it is reported
/// at.
pub enum ErrKind {
    ExpectedFunctionDeclaration,
    ExpectedIdentifier,
    ExpectedLeftParenthesis,
    ExpectedColonCommaOrRightParen,
    ExpectedCommaOrRightParen,
    ExpectedTypeKeyword,
    ExpectedLeftBrace,
    DuplicateMainDeclaration,
}

/// The error value that `push_token` reports for kind `k` at position `p`.
pub open spec fn err_at(k: ErrKind, p: Position) -> CompilerErr {
    match k {
        ErrKind::ExpectedFunctionDeclaration => CompilerErr::ExpectedFunctionDeclaration(p),
        ErrKind::ExpectedIdentifier => CompilerErr::ExpectedIdentifier(p),
        ErrKind::ExpectedLeftParenthesis => CompilerErr::ExpectedLeftParenthesis(p),
        ErrKind::ExpectedColonCommaOrRightParen => CompilerErr::ExpectedColonCommaOrRightParen(p),
        ErrKind::ExpectedCommaOrRightParen => CompilerErr::ExpectedCommaOrRightParen(p),
        ErrKind::ExpectedTypeKeyword => CompilerErr::ExpectedTypeKeyword(p),
        ErrKind::ExpectedLeftBrace => CompilerErr::ExpectedLeftBrace(p),
        ErrKind::DuplicateMainDeclaration => CompilerErr::DuplicateMainDeclaration(p),
    }
}

/// Mathematical counterpart of `Compiler`.
#[verifier::ext_equal]
pub struct CompilerView {
    pub state: CompilerState,
    pub frames: Seq<FrameView>,
    pub bitmap: Seq<u8>,
    pub malleable_count: nat,
    pub found_main: bool,
}

// ---------------------------------------------------------------------------
// The malleable bitmap
// ---------------------------------------------------------------------------
/// Whether bit `i` of the bitmap is set: bit `i mod 8` of byte `i / 8`,
/// least significant bit first.
pub open spec fn bit_is_set(bm: Seq<u8>, i: nat) -> bool {
    (bm[i as int / 8] >> ((i % 8) as u8)) & 1u8 == 1u8
}

/// The bitmap invariant for `count` recorded flags: exactly the bytes
/// needed, every bit below `count` set, every bit beyond it clear.
pub open spec fn bitmap_inv(bm: Seq<u8>, count: nat) -> bool {
    &&& bm.len() == (count + 7) / 8
    &&& forall|i: nat| i < count ==> #[trigger] bit_is_set(bm, i)
    &&& forall|i: nat| count <= i < 8 * bm.len() ==> !#[trigger] bit_is_set(bm, i)
}

/// The bitmap after recording flag number `count` (0-indexed): grown by
/// one zero byte if full, then bit `count mod 8` of byte `count / 8` set.
pub open spec fn bitmap_mark(bm: Seq<u8>, count: nat) -> Seq<u8> {
    let grown = if bm.len() < count / 8 + 1 {
        bm.push(0u8)
    } else {
        bm
    };
    grown.update(count as int / 8, grown[count as int / 8] | (1u8 << ((count % 8) as u8)))
}

proof fn lemma_bv_set_bit(b: u8, r: u8)
    requires
        r < 8,
    ensures
        ((b | (1u8 << r)) >> r) & 1u8 == 1u8,
{
    assert(((b | (1u8 << r)) >> r) & 1u8 == 1u8) by (bit_vector)
        requires
            r < 8,
    ;
}

proof fn lemma_bv_other_bit(b: u8, r: u8, k: u8)
    requires
        r < 8,
        k < 8,
        k != r,
    ensures
        ((b | (1u8 << r)) >> k) & 1u8 == (b >> k) & 1u8,
{
    assert(((b | (1u8 << r)) >> k) & 1u8 == (b >> k) & 1u8) by (bit_vector)
        requires
            r < 8 && k < 8 && k != r,
    ;
}

proof fn lemma_bv_zero_byte(k: u8)
    ensures
        (0u8 >> k) & 1u8 == 0u8,
{
    assert((0u8 >> k) & 1u8 == 0u8) by (bit_vector);
}

/// Law of the bitmap encoder: recording one more flag preserves the
/// invariant. In particular the buffer always holds exactly
/// `ceil(count / 8)` bytes, earlier bits are preserved, bit `count` is
/// set, and the spare bits of the last byte stay clear — for any number
/// of flags, across every byte boundary.
pub proof fn lemma_bitmap_mark(bm: Seq<u8>, count: nat)
    requires
        bitmap_inv(bm, count),
    ensures
        bitmap_inv(bitmap_mark(bm, count), count + 1),
        bitmap_mark(bm, count).len() == (count + 8) / 8,
{
    let j = count as int / 8;
    let r = (count % 8) as u8;
    let grown = if bm.len() < count / 8 + 1 {
        bm.push(0u8)
    } else {
        bm
    };
    let marked = bitmap_mark(bm, count);
    assert(grown.len() == count / 8 + 1);
    assert(marked.len() == grown.len());
    assert(marked[j] == grown[j] | (1u8 << r));
    assert forall|i: nat| i < count + 1 implies #[trigger] bit_is_set(marked, i) by {
        let ji = i as int / 8;
        let ri = (i % 8) as u8;
        if i == count {
            lemma_bv_set_bit(grown[j], r);
        } else {
            assert(bit_is_set(bm, i));
            assert(ji <= j);
            if ji == j {
                assert(ri != r);
                lemma_bv_other_bit(grown[j], r, ri);
                if bm.len() < count / 8 + 1 {
                    assert(ji < bm.len() || grown[ji] == 0u8);
                    assert(ji < bm.len());
                }
            } else {
                assert(marked[ji] == bm[ji]);
            }
        }
    }
    assert forall|i: nat| count + 1 <= i < 8 * marked.len() implies !#[trigger] bit_is_set(
        marked,
        i,
    ) by {
        let ji = i as int / 8;
        let ri = (i % 8) as u8;
        assert(ji < marked.len());
        if ji == j {
            assert(ri != r);
            lemma_bv_other_bit(grown[j], r, ri);
            if bm.len() < count / 8 + 1 {
                assert(grown[j] == 0u8);
                lemma_bv_zero_byte(ri);
            } else {
                assert(!bit_is_set(bm, i));
            }
        } else {
            assert(ji < bm.len());
            assert(marked[ji] == bm[ji]);
            assert(!bit_is_set(bm, i));
        }
    }
}

// ---------------------------------------------------------------------------
// The transition table
// ---------------------------------------------------------------------------
/// The index the next non-`main` function receives: functions other than
/// `main` count from 1 in declaration order.
pub open spec fn next_function_index(c: CompilerView) -> nat {
    if c.found_main {
        c.frames.len()
    } else {
        c.frames.len() + 1
    }
}

/// Whether the parameter list being parsed belongs to `main`.
pub open spec fn parsing_main(c: CompilerView) -> bool {
    c.frames.len() > 0 && c.frames.last().index == 0
}

/// `c` with a fresh frame for function `index` pushed.
pub open spec fn with_new_frame(c: CompilerView, index: nat) -> CompilerView {
    CompilerView { frames: c.frames.push(FrameView { index, params: seq![] }), ..c }
}

/// `c` with parameter `name`, typed `Any`, appended to the current frame.
pub open spec fn with_new_param(c: CompilerView, name: Seq<char>) -> CompilerView {
    let fi = c.frames.len() - 1;
    let f = c.frames[fi];
    CompilerView {
        frames: c.frames.update(
            fi,
            FrameView { params: f.params.push(ParamView { name, vtype: ValueType::Any }), ..f },
        ),
        ..c
    }
}

/// `c` with the current frame's last parameter's type replaced.
pub open spec fn with_param_type(c: CompilerView, vtype: ValueType) -> CompilerView {
    let fi = c.frames.len() - 1;
    let f = c.frames[fi];
    let pi = f.params.len() - 1;
    CompilerView {
        frames: c.frames.update(
            fi,
            FrameView { params: f.params.update(pi, ParamView { vtype, ..f.params[pi] }), ..f },
        ),
        ..c
    }
}

/// The type a type keyword declares; `None` for every other keyword.
pub open spec fn type_of_keyword(k: Keyword) -> Option<ValueType> {
    match k {
        Keyword::U8 => Some(ValueType::U8),
        Keyword::U16 => Some(ValueType::U16),
        Keyword::U32 => Some(ValueType::U32),
        Keyword::U64 => Some(ValueType::U64),
        Keyword::U128 => Some(ValueType::U128),
        Keyword::UBIG => Some(ValueType::UBIG),
        Keyword::I8 => Some(ValueType::I8),
        Keyword::I16 => Some(ValueType::I16),
        Keyword::I32 => Some(ValueType::I32),
        Keyword::I64 => Some(ValueType::I64),
        Keyword::I128 => Some(ValueType::I128),
        Keyword::IBIG => Some(ValueType::IBIG),
        Keyword::F32 => Some(ValueType::F32),
        Keyword::F64 => Some(ValueType::F64),
        Keyword::Decimal => Some(ValueType::Decimal),
        Keyword::Address => Some(ValueType::Address),
        Keyword::Asset => Some(ValueType::Asset),
        _ => None,
    }
}

/// The transition table: what one token does to the parser. `Err` means
/// the token is rejected and the state is to stay as it was. `malleable`
/// is accepted only while `main`'s parameters are being parsed; anywhere
/// else it falls through to the mismatch arm.
pub open spec fn spec_step(c: CompilerView, kind: TokenKindView) -> Result<
    CompilerView,
    ErrKind,
> {
    match c.state {
        CompilerState::AwaitingDeclaration => match kind {
            TokenKindView::Keyword(Keyword::Function) => Ok(
                CompilerView { state: CompilerState::AwaitingFunctionIdentifier, ..c },
            ),
            _ => Err(ErrKind::ExpectedFunctionDeclaration),
        },
        CompilerState::AwaitingFunctionIdentifier => match kind {
            TokenKindView::Identifier(name) => if name == "main"@ {
                if c.found_main {
                    Err(ErrKind::DuplicateMainDeclaration)
                } else {
                    Ok(
                        CompilerView {
                            state: CompilerState::AwaitingLeftParen,
                            found_main: true,
                            ..with_new_frame(CompilerView { found_main: true, ..c }, 0)
                        },
                    )
                }
            } else {
                Ok(
                    CompilerView {
                        state: CompilerState::AwaitingLeftParen,
                        ..with_new_frame(c, next_function_index(c))
                    },
                )
            },
            _ => Err(ErrKind::ExpectedIdentifier),
        },
        CompilerState::AwaitingLeftParen => match kind {
            TokenKindView::Symbol(Symbol::ParenthesisLeft) => Ok(
                CompilerView { state: CompilerState::AwaitingParamOrClose, ..c },
            ),
            _ => Err(ErrKind::ExpectedLeftParenthesis),
        },
        CompilerState::AwaitingParamOrClose => match kind {
            TokenKindView::Keyword(Keyword::Malleable) if parsing_main(c) => Ok(
                CompilerView {
                    state: CompilerState::AwaitingParamIdentifier,
                    bitmap: bitmap_mark(c.bitmap, c.malleable_count),
                    malleable_count: c.malleable_count + 1,
                    ..c
                },
            ),
            TokenKindView::Identifier(name) => Ok(
                CompilerView {
                    state: CompilerState::AwaitingColonCommaOrClose,
                    ..with_new_param(c, name)
                },
            ),
            TokenKindView::Symbol(Symbol::ParenthesisRight) => Ok(
                CompilerView { state: CompilerState::AwaitingBodyBrace, ..c },
            ),
            _ => Err(ErrKind::ExpectedIdentifier),
        },
        CompilerState::AwaitingParamIdentifier => match kind {
            TokenKindView::Identifier(name) => Ok(
                CompilerView {
                    state: CompilerState::AwaitingColonCommaOrClose,
                    ..with_new_param(c, name)
                },
            ),
            _ => Err(ErrKind::ExpectedIdentifier),
        },
        CompilerState::AwaitingColonCommaOrClose => match kind {
            TokenKindView::Symbol(Symbol::Colon) => Ok(
                CompilerView { state: CompilerState::AwaitingParamType, ..c },
            ),
            TokenKindView::Symbol(Symbol::Comma) => Ok(
                CompilerView { state: CompilerState::AwaitingParamOrClose, ..c },
            ),
            TokenKindView::Symbol(Symbol::ParenthesisRight) => Ok(
                CompilerView { state: CompilerState::AwaitingBodyBrace, ..c },
            ),
            _ => Err(ErrKind::ExpectedColonCommaOrRightParen),
        },
        CompilerState::AwaitingParamType => match kind {
            TokenKindView::Keyword(k) => match type_of_keyword(k) {
                Some(vtype) => Ok(
                    CompilerView {
                        state: CompilerState::AwaitingCommaOrClose,
                        ..with_param_type(c, vtype)
                    },
                ),
                None => Err(ErrKind::ExpectedTypeKeyword),
            },
            _ => Err(ErrKind::ExpectedTypeKeyword),
        },
        CompilerState::AwaitingCommaOrClose => match kind {
            TokenKindView::Symbol(Symbol::Comma) => Ok(
                CompilerView { state: CompilerState::AwaitingParamOrClose, ..c },
            ),
            TokenKindView::Symbol(Symbol::ParenthesisRight) => Ok(
                CompilerView { state: CompilerState::AwaitingBodyBrace, ..c },
            ),
            _ => Err(ErrKind::ExpectedCommaOrRightParen),
        },
        CompilerState::AwaitingBodyBrace => match kind {
            TokenKindView::Symbol(Symbol::BraceLeft) => Ok(
                CompilerView { state: CompilerState::AwaitingDeclaration, ..c },
            ),
            _ => Err(ErrKind::ExpectedLeftBrace),
        },
    }
}

// ---------------------------------------------------------------------------
// The compiler state
// ---------------------------------------------------------------------------
/// Bounds and shape that every reachable compiler state satisfies: the
/// bitmap matches the flag count; `found_main` tracks whether a frame for
/// `main` exists, and at most one does; and whenever the machine is
/// inside a declaration there is a current frame, with a current
/// parameter where a type annotation could apply to one.
pub open spec fn view_wf(c: CompilerView) -> bool {
    &&& bitmap_inv(c.bitmap, c.malleable_count)
    &&& c.found_main <==> exists|i: int|
        0 <= i < c.frames.len() && (#[trigger] c.frames[i]).index == 0
    &&& forall|i: int, j: int|
        0 <= i < c.frames.len() && 0 <= j < c.frames.len() && (#[trigger] c.frames[i]).index == 0
            && (#[trigger] c.frames[j]).index == 0 ==> i == j
    &&& !(c.state is AwaitingDeclaration || c.state is AwaitingFunctionIdentifier)
        ==> c.frames.len() > 0
    &&& (c.state is AwaitingColonCommaOrClose || c.state is AwaitingParamType) ==> c.frames.len()
        > 0 && c.frames.last().params.len() > 0
}

/// One parse session: the explicit parser state, the frames built so far,
/// and the malleable bitmap. Created once per compilation unit; fed every
/// token through `push_token`; read out through `compile`.
pub struct Compiler {
    state: CompilerState,
    frame_stack: Vec<Frame>,
    out_bitmap: Vec<u8>,
    out_malleable_args_count: usize,
    found_main: bool,
}

impl View for Compiler {
    type V = CompilerView;

    closed spec fn view(&self) -> CompilerView {
        CompilerView {
            state: self.state,
            frames: self.frame_stack@.map_values(|f: Frame| f@),
            bitmap: self.out_bitmap@,
            malleable_count: self.out_malleable_args_count as nat,
            found_main: self.found_main,
        }
    }
}

impl Compiler {
    pub open spec fn wf(&self) -> bool {
        view_wf(self@)
    }

    /// A fresh session: awaiting the first declaration, no frames, no
    /// flags, `main` not yet seen.
    pub fn new() -> (c: Compiler)
        ensures
            c.wf(),
            c@ == (CompilerView {
                state: CompilerState::AwaitingDeclaration,
                frames: Seq::<FrameView>::empty(),
                bitmap: Seq::<u8>::empty(),
                malleable_count: 0,
                found_main: false,
            }),
    {
        let c = Compiler {
            state: CompilerState::AwaitingDeclaration,
            frame_stack: Vec::new(),
            out_bitmap: Vec::new(),
            out_malleable_args_count: 0,
            found_main: false,
        };
        proof {
            assert(c@.frames =~= Seq::<FrameView>::empty());
            assert(c@ =~= CompilerView {
                state: CompilerState::AwaitingDeclaration,
                frames: Seq::<FrameView>::empty(),
                bitmap: Seq::<u8>::empty(),
                malleable_count: 0,
                found_main: false,
            });
        }
        c
    }

    /// Records one more malleable flag: grow the bitmap by one zero byte
    /// when full, then set bit `count mod 8` of byte `count div 8` — the
    /// byte and bit indices are computed separately, so the count may
    /// cross any number of byte boundaries.
    fn mark_malleable(&mut self)
        requires
            bitmap_inv(old(self)@.bitmap, old(self)@.malleable_count),
            old(self)@.malleable_count < usize::MAX,
        ensures
            final(self)@ == (CompilerView {
                bitmap: bitmap_mark(old(self)@.bitmap, old(self)@.malleable_count),
                malleable_count: old(self)@.malleable_count + 1,
                ..old(self)@
            }),
    {
        let ghost bm0 = self@.bitmap;
        let ghost count0 = self@.malleable_count;
        self.out_malleable_args_count = self.out_malleable_args_count + 1;
        let count = self.out_malleable_args_count;
        let desired: usize = (count - 1) / 8 + 1;
        if self.out_bitmap.len() < desired {
            self.out_bitmap.push(0u8);
        }
        proof {
            assert(self.out_bitmap@ == if bm0.len() < count0 / 8 + 1 {
                bm0.push(0u8)
            } else {
                bm0
            });
            assert(self.out_bitmap@.len() == count0 / 8 + 1);
        }
        let byte_index: usize = (count - 1) / 8;
        let bit_index: usize = (count - 1) % 8;
        let b = self.out_bitmap[byte_index];
        self.out_bitmap[byte_index] = b | (1u8 << (bit_index as u8));
        proof {
            assert(final(self)@.bitmap == bitmap_mark(bm0, count0));
            assert(final(self)@ =~= CompilerView {
                bitmap: bitmap_mark(bm0, count0),
                malleable_count: count0 + 1,
                ..old(self)@
            });
        }
    }
}

impl Compiler {
    /// Feeds one token to the state machine. `Ok` applies exactly the
    /// transition that `spec_step` gives; on any mismatch the error named
    /// by the table comes back carrying the token's position, and the
    /// state is left exactly as it was, so the caller may retry with a
    /// corrected token. The two `usize::MAX` bounds keep the flag counter
    /// and the function indices within the machine word.
    pub fn push_token(&mut self, token: Token) -> (r: Result<(), CompilerErr>)
        requires
            old(self).wf(),
            old(self)@.malleable_count < usize::MAX,
            old(self)@.frames.len() < usize::MAX,
        ensures
            final(self).wf(),
            match spec_step(old(self)@, token@.kind) {
                Ok(c2) => r is Ok && final(self)@ == c2,
                Err(k) => r == Err::<(), CompilerErr>(err_at(k, token.position)) && final(self)@
                    == old(self)@,
            },
    {
        let ghost c0 = self@;
        let pos = token.position;
        match self.state {
            CompilerState::AwaitingDeclaration => match token.kind {
                TokenKind::Keyword(Keyword::Function) => {
                    self.state = CompilerState::AwaitingFunctionIdentifier;
                    proof {
                        assert(view_wf(self@));
                    }
                    Ok(())
                }
                _ => Err(CompilerErr::ExpectedFunctionDeclaration(pos)),
            },
            CompilerState::AwaitingFunctionIdentifier => match token.kind {
                TokenKind::Identifier(name) => {
                    if crate::lexer::eq_str(&name, "main") {
                        if self.found_main {
                            return Err(CompilerErr::DuplicateMainDeclaration(pos));
                        }
                        self.found_main = true;
                        self.frame_stack.push(Frame { index: 0, parameters: Vec::new() });
                        self.state = CompilerState::AwaitingLeftParen;
                        proof {
                            let c2 = spec_step(c0, token@.kind)->Ok_0;
                            assert(self@.frames[c0.frames.len() as int].params
                                =~= Seq::<ParamView>::empty());
                            assert(self@.frames =~= c2.frames);
                            assert(self@ =~= c2);
                            assert(self@.frames[c0.frames.len() as int].index == 0);
                            assert(view_wf(self@));
                        }
                        Ok(())
                    } else {
                        let index: usize = if self.found_main {
                            self.frame_stack.len()
                        } else {
                            self.frame_stack.len() + 1
                        };
                        self.frame_stack.push(Frame { index, parameters: Vec::new() });
                        self.state = CompilerState::AwaitingLeftParen;
                        proof {
                            let c2 = spec_step(c0, token@.kind)->Ok_0;
                            assert(self@.frames[c0.frames.len() as int].params
                                =~= Seq::<ParamView>::empty());
                            assert(self@.frames =~= c2.frames);
                            assert(self@ =~= c2);
                            assert(index >= 1);
                            if c0.found_main {
                                let i0 = choose|i: int|
                                    0 <= i < c0.frames.len() && (#[trigger] c0.frames[i]).index
                                        == 0;
                                assert(self@.frames[i0].index == 0);
                            }
                            assert(view_wf(self@));
                        }
                        Ok(())
                    }
                }
                _ => Err(CompilerErr::ExpectedIdentifier(pos)),
            },
            CompilerState::AwaitingLeftParen => match token.kind {
                TokenKind::Symbol(Symbol::ParenthesisLeft) => {
                    self.state = CompilerState::AwaitingParamOrClose;
                    proof {
                        assert(view_wf(self@));
                    }
                    Ok(())
                }
                _ => Err(CompilerErr::ExpectedLeftParenthesis(pos)),
            },
            CompilerState::AwaitingParamOrClose => match token.kind {
                TokenKind::Keyword(Keyword::Malleable) => {
                    let fi = self.frame_stack.len() - 1;
                    if self.frame_stack[fi].index == 0 {
                        self.mark_malleable();
                        self.state = CompilerState::AwaitingParamIdentifier;
                        proof {
                            lemma_bitmap_mark(c0.bitmap, c0.malleable_count);
                            assert(self@ =~= spec_step(c0, token@.kind)->Ok_0);
                            if c0.found_main {
                                let i0 = choose|i: int|
                                    0 <= i < c0.frames.len() && (#[trigger] c0.frames[i]).index
                                        == 0;
                                assert(self@.frames[i0].index == 0);
                            }
                            assert(view_wf(self@));
                        }
                        Ok(())
                    } else {
                        Err(CompilerErr::ExpectedIdentifier(pos))
                    }
                }
                TokenKind::Identifier(name) => {
                    self.push_param(name);
                    self.state = CompilerState::AwaitingColonCommaOrClose;
                    proof {
                        assert(self@ =~= spec_step(c0, token@.kind)->Ok_0);
                        assert(self@.frames.len() == c0.frames.len());
                        assert(forall|i: int|
                            0 <= i < c0.frames.len() ==> (#[trigger] self@.frames[i]).index
                                == c0.frames[i].index);
                        if c0.found_main {
                            let i0 = choose|i: int|
                                0 <= i < c0.frames.len() && (#[trigger] c0.frames[i]).index
                                    == 0;
                            assert(self@.frames[i0].index == 0);
                        }
                        assert(view_wf(self@));
                    }
                    Ok(())
                }
                TokenKind::Symbol(Symbol::ParenthesisRight) => {
                    self.state = CompilerState::AwaitingBodyBrace;
                    proof {
                        assert(view_wf(self@));
                    }
                    Ok(())
                }
                _ => Err(CompilerErr::ExpectedIdentifier(pos)),
            },
            CompilerState::AwaitingParamIdentifier => match token.kind {
                TokenKind::Identifier(name) => {
                    self.push_param(name);
                    self.state = CompilerState::AwaitingColonCommaOrClose;
                    proof {
                        assert(self@ =~= spec_step(c0, token@.kind)->Ok_0);
                        assert(self@.frames.len() == c0.frames.len());
                        assert(forall|i: int|
                            0 <= i < c0.frames.len() ==> (#[trigger] self@.frames[i]).index
                                == c0.frames[i].index);
                        if c0.found_main {
                            let i0 = choose|i: int|
                                0 <= i < c0.frames.len() && (#[trigger] c0.frames[i]).index
                                    == 0;
                            assert(self@.frames[i0].index == 0);
                        }
                        assert(view_wf(self@));
                    }
                    Ok(())
                }
                _ => Err(CompilerErr::ExpectedIdentifier(pos)),
            },
            CompilerState::AwaitingColonCommaOrClose => match token.kind {
                TokenKind::Symbol(Symbol::Colon) => {
                    self.state = CompilerState::AwaitingParamType;
                    proof {
                        assert(view_wf(self@));
                    }
                    Ok(())
                }
                TokenKind::Symbol(Symbol::Comma) => {
                    self.state = CompilerState::AwaitingParamOrClose;
                    proof {
                        assert(view_wf(self@));
                    }
                    Ok(())
                }
                TokenKind::Symbol(Symbol::ParenthesisRight) => {
                    self.state = CompilerState::AwaitingBodyBrace;
                    proof {
                        assert(view_wf(self@));
                    }
                    Ok(())
                }
                _ => Err(CompilerErr::ExpectedColonCommaOrRightParen(pos)),
            },
            CompilerState::AwaitingParamType => match token.kind {
                TokenKind::Keyword(k) => match type_keyword(k) {
                    Some(vtype) => {
                        self.set_last_param_type(vtype);
                        self.state = CompilerState::AwaitingCommaOrClose;
                        proof {
                            assert(self@ =~= spec_step(c0, token@.kind)->Ok_0);
                            assert(self@.frames.len() == c0.frames.len());
                            assert(forall|i: int|
                                0 <= i < c0.frames.len() ==> (#[trigger] self@.frames[i]).index
                                    == c0.frames[i].index);
                            if c0.found_main {
                                let i0 = choose|i: int|
                                    0 <= i < c0.frames.len() && (#[trigger] c0.frames[i]).index
                                        == 0;
                                assert(self@.frames[i0].index == 0);
                            }
                            assert(view_wf(self@));
                        }
                        Ok(())
                    }
                    None => Err(CompilerErr::ExpectedTypeKeyword(pos)),
                },
                _ => Err(CompilerErr::ExpectedTypeKeyword(pos)),
            },
            CompilerState::AwaitingCommaOrClose => match token.kind {
                TokenKind::Symbol(Symbol::Comma) => {
                    self.state = CompilerState::AwaitingParamOrClose;
                    proof {
                        assert(view_wf(self@));
                    }
                    Ok(())
                }
                TokenKind::Symbol(Symbol::ParenthesisRight) => {
                    self.state = CompilerState::AwaitingBodyBrace;
                    proof {
                        assert(view_wf(self@));
                    }
                    Ok(())
                }
                _ => Err(CompilerErr::ExpectedCommaOrRightParen(pos)),
            },
            CompilerState::AwaitingBodyBrace => match token.kind {
                TokenKind::Symbol(Symbol::BraceLeft) => {
                    self.state = CompilerState::AwaitingDeclaration;
                    proof {
                        assert(view_wf(self@));
                    }
                    Ok(())
                }
                _ => Err(CompilerErr::ExpectedLeftBrace(pos)),
            },
        }
    }

    /// Appends a parameter named `name`, typed `Any`, to the current
    /// frame.
    fn push_param(&mut self, name: String)
        requires
            old(self)@.frames.len() > 0,
        ensures
            final(self)@ == with_new_param(old(self)@, name@),
    {
        let ghost c0 = self@;
        let fi = self.frame_stack.len() - 1;
        let f = &mut self.frame_stack[fi];
        f.parameters.push(Param { name, vtype: ValueType::Any });
        proof {
            assert(self@.frames[fi as int].params =~= with_new_param(c0, name@).frames[
                fi as int
            ].params);
            assert(self@.frames[fi as int] =~= with_new_param(c0, name@).frames[fi as int]);
            assert(self@.frames =~= with_new_param(c0, name@).frames);
            assert(self@ =~= with_new_param(c0, name@));
        }
    }

    /// Replaces the type of the current frame's last parameter.
    fn set_last_param_type(&mut self, vtype: ValueType)
        requires
            old(self)@.frames.len() > 0,
            old(self)@.frames.last().params.len() > 0,
        ensures
            final(self)@ == with_param_type(old(self)@, vtype),
    {
        let ghost c0 = self@;
        let fi = self.frame_stack.len() - 1;
        let f = &mut self.frame_stack[fi];
        let pi = f.parameters.len() - 1;
        let p = &mut f.parameters[pi];
        p.vtype = vtype;
        proof {
            assert(self@.frames[fi as int].params =~= with_param_type(c0, vtype).frames[
                fi as int
            ].params);
            assert(self@.frames[fi as int] =~= with_param_type(c0, vtype).frames[fi as int]);
            assert(self@.frames =~= with_param_type(c0, vtype).frames);
            assert(self@ =~= with_param_type(c0, vtype));
        }
    }
}

// ---------------------------------------------------------------------------
// Assembling the declaration section
// ---------------------------------------------------------------------------
/// The one-byte tag of a declared type, in declaration order of the
/// variants. Tag 0 belongs to `Any`, the default of a parameter that
/// never received an annotation; an annotated parameter cannot carry it.
pub open spec fn tag_of(v: ValueType) -> u8 {
    match v {
        ValueType::Any => 0,
        ValueType::U8 => 1,
        ValueType::U16 => 2,
        ValueType::U32 => 3,
        ValueType::U64 => 4,
        ValueType::U128 => 5,
        ValueType::UBIG => 6,
        ValueType::I8 => 7,
        ValueType::I16 => 8,
        ValueType::I32 => 9,
        ValueType::I64 => 10,
        ValueType::I128 => 11,
        ValueType::IBIG => 12,
        ValueType::F32 => 13,
        ValueType::F64 => 14,
        ValueType::Decimal => 15,
        ValueType::Address => 16,
        ValueType::Asset => 17,
    }
}

/// The type tags of a parameter list, one byte per parameter, in order.
pub open spec fn tags_of(params: Seq<ParamView>) -> Seq<u8> {
    params.map_values(|p: ParamView| tag_of(p.vtype))
}

/// The position of the first frame with index 0, or the length if none
/// exists.
pub open spec fn first_main(frames: Seq<FrameView>, i: int) -> int
    decreases frames.len() - i,
{
    if i < 0 || i >= frames.len() {
        frames.len() as int
    } else if frames[i].index == 0 {
        i
    } else {
        first_main(frames, i + 1)
    }
}

/// The serialized section of `main`: its parameter count, its type tags,
/// then the malleable bitmap.
pub open spec fn main_section(c: CompilerView) -> Seq<u8> {
    let m = c.frames[first_main(c.frames, 0)];
    seq![m.params.len() as u8] + tags_of(m.params) + c.bitmap
}

/// The serialized sections of every function other than `main` among the
/// first `n` frames, in declaration order: index, parameter count, type
/// tags.
pub open spec fn others_upto(frames: Seq<FrameView>, n: int) -> Seq<u8>
    decreases n,
{
    if n <= 0 {
        Seq::empty()
    } else {
        others_upto(frames, n - 1) + (if frames[n - 1].index == 0 {
            Seq::empty()
        } else {
            seq![frames[n - 1].index as u8, frames[n - 1].params.len() as u8] + tags_of(
                frames[n - 1].params,
            )
        })
    }
}

/// The whole declaration section: `main`'s section first, then every
/// other function's. Function bodies are not here; the byte stream ends
/// where the (out-of-scope) body compiler takes over.
pub open spec fn assembled(c: CompilerView) -> Seq<u8> {
    main_section(c) + others_upto(c.frames, c.frames.len() as int)
}

/// An occurrence of index 0 at `j`, with none before it, is what
/// `first_main` returns.
proof fn lemma_first_main_found(frames: Seq<FrameView>, i: int, j: int)
    requires
        0 <= i <= j < frames.len(),
        frames[j].index == 0,
        forall|k: int| i <= k < j ==> (#[trigger] frames[k]).index != 0,
    ensures
        first_main(frames, i) == j,
    decreases j - i,
{
    if i < j {
        lemma_first_main_found(frames, i + 1, j);
    }
}

/// The one-byte tag of a declared type; agrees with `tag_of`.
fn value_type_tag(v: ValueType) -> (r: u8)
    ensures
        r == tag_of(v),
{
    match v {
        ValueType::Any => 0,
        ValueType::U8 => 1,
        ValueType::U16 => 2,
        ValueType::U32 => 3,
        ValueType::U64 => 4,
        ValueType::U128 => 5,
        ValueType::UBIG => 6,
        ValueType::I8 => 7,
        ValueType::I16 => 8,
        ValueType::I32 => 9,
        ValueType::I64 => 10,
        ValueType::I128 => 11,
        ValueType::IBIG => 12,
        ValueType::F32 => 13,
        ValueType::F64 => 14,
        ValueType::Decimal => 15,
        ValueType::Address => 16,
        ValueType::Asset => 17,
    }
}

impl Compiler {
    /// Serializes the declaration section: for `main` its parameter count,
    /// type tags and the malleable bitmap; for every other function its
    /// index, parameter count and type tags, in declaration order. Fails
    /// with `MissingMainDeclaration` — and only then — when no `main` was
    /// ever declared, whatever else the session holds. Counts and indices
    /// occupy one byte each, which is what the bounds in `requires` are
    /// for; they are demanded only where output is produced at all. No
    /// body bytes follow: the section ends at the hand-off point where a
    /// body compiler would continue. A parameter that never received a
    /// type annotation keeps the default tag 0: the grammar admits such
    /// parameters and defines no error for them, and an annotation always
    /// replaces the default, so a tag 0 in the output marks exactly the
    /// unannotated parameters.
    pub fn compile(&self) -> (r: Result<Vec<u8>, CompilerErr>)
        requires
            self.wf(),
            self@.found_main ==> forall|i: int|
                0 <= i < self@.frames.len() ==> (#[trigger] self@.frames[i]).index <= 255
                    && self@.frames[i].params.len() <= 255,
        ensures
            match r {
                Ok(bytes) => self@.found_main && bytes@ == assembled(self@),
                Err(e) => !self@.found_main && e == CompilerErr::MissingMainDeclaration,
            },
    {
        if !self.found_main {
            return Err(CompilerErr::MissingMainDeclaration);
        }
        let ghost c = self@;
        proof {
            assert(forall|i: int|
                0 <= i < c.frames.len() ==> (#[trigger] c.frames[i]).index <= 255
                    && c.frames[i].params.len() <= 255);
        }
        let mut out: Vec<u8> = Vec::new();
        // locate main's frame
        let n = self.frame_stack.len();
        let mut mi: usize = 0;
        loop
            invariant
                self@ == c,
                self.wf(),
                n == self.frame_stack@.len(),
                self@.found_main,
                mi <= n,
                forall|k: int| 0 <= k < mi ==> (#[trigger] c.frames[k]).index != 0,
            ensures
                mi < n,
                c.frames[mi as int].index == 0,
                first_main(c.frames, 0) == mi,
            decreases n - mi,
        {
            proof {
                if mi == n {
                    let i0 = choose|i: int|
                        0 <= i < c.frames.len() && (#[trigger] c.frames[i]).index == 0;
                    assert(c.frames[i0].index != 0);
                    assert(false);
                }
            }
            if self.frame_stack[mi].index == 0 {
                proof {
                    lemma_first_main_found(c.frames, 0, mi as int);
                }
                break ;
            }
            mi = mi + 1;
        }
        // main: parameter count, then type tags, then the bitmap
        let m = &self.frame_stack[mi];
        let ghost mv = c.frames[mi as int];
        out.push(m.parameters.len() as u8);
        let pcount = m.parameters.len();
        let mut j: usize = 0;
        while j < pcount
            invariant
                self@ == c,
                m@ == mv,
                mv == c.frames[first_main(c.frames, 0)],
                pcount == m.parameters@.len(),
                mv.params.len() == pcount,
                mv.params.len() <= 255,
                j <= pcount,
                out@ == seq![mv.params.len() as u8] + tags_of(mv.params).take(j as int),
            decreases pcount - j,
        {
            let t = value_type_tag(m.parameters[j].vtype);
            out.push(t);
            proof {
                assert(mv.params[j as int] == m.parameters@[j as int]@);
                assert(tags_of(mv.params).take(j + 1int) =~= tags_of(mv.params).take(
                    j as int,
                ).push(tag_of(mv.params[j as int].vtype)));
                assert(out@ =~= seq![mv.params.len() as u8] + tags_of(mv.params).take(j + 1int));
            }
            j = j + 1;
        }
        proof {
            assert(tags_of(mv.params).take(mv.params.len() as int) =~= tags_of(mv.params));
        }
        let bn = self.out_bitmap.len();
        let mut k: usize = 0;
        while k < bn
            invariant
                self@ == c,
                mv == c.frames[first_main(c.frames, 0)],
                bn == c.bitmap.len(),
                k <= bn,
                out@ == seq![mv.params.len() as u8] + tags_of(mv.params) + c.bitmap.take(k as int),
            decreases bn - k,
        {
            let b = self.out_bitmap[k];
            out.push(b);
            proof {
                assert(c.bitmap.take(k + 1int) =~= c.bitmap.take(k as int).push(
                    c.bitmap[k as int],
                ));
                assert(out@ =~= seq![mv.params.len() as u8] + tags_of(mv.params) + c.bitmap.take(
                    k + 1int,
                ));
            }
            k = k + 1;
        }
        proof {
            assert(c.bitmap.take(c.bitmap.len() as int) =~= c.bitmap);
            assert(out@ == main_section(c));
            assert(out@ =~= main_section(c) + others_upto(c.frames, 0));
        }
        // every other function: index, parameter count, type tags
        let mut fi: usize = 0;
        while fi < n
            invariant
                self@ == c,
                self.wf(),
                n == self.frame_stack@.len(),
                forall|i: int|
                    0 <= i < c.frames.len() ==> (#[trigger] c.frames[i]).index <= 255
                        && c.frames[i].params.len() <= 255,
                fi <= n,
                out@ == main_section(c) + others_upto(c.frames, fi as int),
            decreases n - fi,
        {
            let f = &self.frame_stack[fi];
            let ghost fv = c.frames[fi as int];
            if f.index != 0 {
                out.push(f.index as u8);
                out.push(f.parameters.len() as u8);
                let ghost base = out@;
                proof {
                    assert(base =~= main_section(c) + others_upto(c.frames, fi as int) + seq![
                        fv.index as u8,
                        fv.params.len() as u8,
                    ]);
                }
                let fcount = f.parameters.len();
                let mut j2: usize = 0;
                while j2 < fcount
                    invariant
                        self@ == c,
                        f@ == fv,
                        fcount == f.parameters@.len(),
                        fv.params.len() == fcount,
                        fv.params.len() <= 255,
                        j2 <= fcount,
                        out@ == base + tags_of(fv.params).take(j2 as int),
                    decreases fcount - j2,
                {
                    let t = value_type_tag(f.parameters[j2].vtype);
                    out.push(t);
                    proof {
                        assert(fv.params[j2 as int] == f.parameters@[j2 as int]@);
                        assert(tags_of(fv.params).take(j2 + 1int) =~= tags_of(fv.params).take(
                            j2 as int,
                        ).push(tag_of(fv.params[j2 as int].vtype)));
                        assert(out@ =~= base + tags_of(fv.params).take(j2 + 1int));
                    }
                    j2 = j2 + 1;
                }
                proof {
                    assert(tags_of(fv.params).take(fv.params.len() as int) =~= tags_of(
                        fv.params,
                    ));
                    assert(out@ =~= main_section(c) + others_upto(c.frames, fi + 1int));
                }
            } else {
                proof {
                    assert(out@ =~= main_section(c) + others_upto(c.frames, fi + 1int));
                }
            }
            fi = fi + 1;
        }
        Ok(out)
    }
}

// ---------------------------------------------------------------------------
// Hexadecimal rendering of the declaration section
// ---------------------------------------------------------------------------
/// The lowercase hexadecimal digit of a value below 16.
pub open spec fn hex_digit(n: u8) -> char {
    if n == 0 {
        '0'
    } else if n == 1 {
        '1'
    } else if n == 2 {
        '2'
    } else if n == 3 {
        '3'
    } else if n == 4 {
        '4'
    } else if n == 5 {
        '5'
    } else if n == 6 {
        '6'
    } else if n == 7 {
        '7'
    } else if n == 8 {
        '8'
    } else if n == 9 {
        '9'
    } else if n == 10 {
        'a'
    } else if n == 11 {
        'b'
    } else if n == 12 {
        'c'
    } else if n == 13 {
        'd'
    } else if n == 14 {
        'e'
    } else {
        'f'
    }
}

/// The lowercase hexadecimal rendering of a byte sequence: two digits per
/// byte, high nibble first.
pub open spec fn hex_of(b: Seq<u8>) -> Seq<char>
    decreases b.len(),
{
    if b.len() == 0 {
        Seq::empty()
    } else {
        seq![hex_digit(b[0] / 16), hex_digit(b[0] % 16)] + hex_of(b.drop_first())
    }
}

/// Relies on `hex::encode`: two lowercase hexadecimal digits per input
/// byte, high nibble first.
#[verifier::external_body]
fn hex_encode(bytes: &Vec<u8>) -> (r: String)
    ensures
        r@ == hex_of(bytes@),
{
    hex::encode(bytes.as_slice())
}

impl Compiler {
    /// The declaration section as a lowercase hexadecimal string: the
    /// form a compiler driver prints. Fails exactly as `compile` does.
    pub fn compile_hex(&self) -> (r: Result<String, CompilerErr>)
        requires
            self.wf(),
            self@.found_main ==> forall|i: int|
                0 <= i < self@.frames.len() ==> (#[trigger] self@.frames[i]).index <= 255
                    && self@.frames[i].params.len() <= 255,
        ensures
            match r {
                Ok(s) => self@.found_main && s@ == hex_of(assembled(self@)),
                Err(e) => !self@.found_main && e == CompilerErr::MissingMainDeclaration,
            },
    {
        match self.compile() {
            Ok(bytes) => Ok(hex_encode(&bytes)),
            Err(e) => Err(e),
        }
    }

    /// The frames built so far, `main` at index 0, in declaration order
    /// otherwise.
    pub fn frames(&self) -> (r: &Vec<Frame>)
        ensures
            r@.map_values(|f: Frame| f@) == self@.frames,
    {
        &self.frame_stack
    }

    /// The malleable bitmap built so far.
    pub fn bitmap(&self) -> (r: &Vec<u8>)
        ensures
            r@ == self@.bitmap,
    {
        &self.out_bitmap
    }

    /// How many malleable parameters have been recorded.
    pub fn malleable_count(&self) -> (r: usize)
        ensures
            r as nat == self@.malleable_count,
    {
        self.out_malleable_args_count
    }

    /// Whether a `main` declaration has been seen.
    pub fn found_main(&self) -> (r: bool)
        ensures
            r == self@.found_main,
    {
        self.found_main
    }

    /// The grammatical expectation the machine is in.
    pub fn state(&self) -> (r: CompilerState)
        ensures
            r == self@.state,
    {
        self.state
    }
}

/// Law: a second `main` declaration is rejected. Once `main` has been
/// seen, an identifier token spelling `main` in the function-identifier
/// state steps to `DuplicateMainDeclaration`; by `push_token`'s contract
/// the session — the first declaration's frame included — is then left
/// exactly as it was.
pub proof fn lemma_duplicate_main_rejected(c: CompilerView, name: Seq<char>)
    requires
        c.state is AwaitingFunctionIdentifier,
        c.found_main,
        name == "main"@,
    ensures
        spec_step(c, TokenKindView::Identifier(name)) == Err::<CompilerView, ErrKind>(
            ErrKind::DuplicateMainDeclaration,
        ),
{
}

/// The type a type keyword declares; agrees with `type_of_keyword`.
fn type_keyword(k: Keyword) -> (r: Option<ValueType>)
    ensures
        r == type_of_keyword(k),
{
    match k {
        Keyword::U8 => Some(ValueType::U8),
        Keyword::U16 => Some(ValueType::U16),
        Keyword::U32 => Some(ValueType::U32),
        Keyword::U64 => Some(ValueType::U64),
        Keyword::U128 => Some(ValueType::U128),
        Keyword::UBIG => Some(ValueType::UBIG),
        Keyword::I8 => Some(ValueType::I8),
        Keyword::I16 => Some(ValueType::I16),
        Keyword::I32 => Some(ValueType::I32),
        Keyword::I64 => Some(ValueType::I64),
        Keyword::I128 => Some(ValueType::I128),
        Keyword::IBIG => Some(ValueType::IBIG),
        Keyword::F32 => Some(ValueType::F32),
        Keyword::F64 => Some(ValueType::F64),
        Keyword::Decimal => Some(ValueType::Decimal),
        Keyword::Address => Some(ValueType::Address),
        Keyword::Asset => Some(ValueType::Asset),
        _ => None,
    }
}

} // verus!
