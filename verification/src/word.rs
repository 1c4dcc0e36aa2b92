//! Raw machine words: what the decoder and the encoder made of one, and
//! whether the assembler takes it.

use vstd::prelude::*;
use crate::error::{fault, result_view, AsmError, AsmErrorView, ErrorKind};
use crate::instr::Instruction;

verus! {

/// What came of decoding a machine word and encoding the result again.
#[derive(Clone, Debug, PartialEq, Eq)]
pub enum Decoded {
    /// The decoder refused the word, for `reason`.
    Rejected { reason: String },
    /// The decoder accepted the word, and the encoder made `bytes` of the
    /// instruction.
    Reencoded { bytes: Vec<u8> },
}

/// What a `Decoded` holds, as sequences.
pub enum DecodedView {
    Rejected { reason: Seq<char> },
    Reencoded { bytes: Seq<u8> },
}

impl View for Decoded {
    type V = DecodedView;

    open spec fn view(&self) -> DecodedView {
        match *self {
            Decoded::Rejected { reason } => DecodedView::Rejected { reason: reason@ },
            Decoded::Reencoded { bytes } => DecodedView::Reencoded { bytes: bytes@ },
        }
    }
}

/// The four bytes of `word`, least significant first.
pub open spec fn le_bytes(word: u32) -> Seq<u8> {
    seq![
        (word % 256) as u8,
        (word / 256 % 256) as u8,
        (word / 65536 % 256) as u8,
        (word / 16777216) as u8,
    ]
}

/// The instruction that the machine word `word`, written as `text` on line
/// `line_no`, stands for: the word is taken where the decoder accepted it
/// and the encoder gave back its very four bytes, and in no other case.
pub open spec fn accept_raw_word_spec(
    line_no: usize,
    text: Seq<char>,
    word: u32,
    decoded: DecodedView,
) -> Result<Instruction, AsmErrorView> {
    match decoded {
        DecodedView::Rejected { reason } => Err(
            AsmErrorView { line_no, kind: ErrorKind::WordRejected, token: text, detail: reason },
        ),
        DecodedView::Reencoded { bytes } => if bytes == le_bytes(word) {
            Ok(Instruction::Word { word })
        } else {
            Err(fault(line_no, ErrorKind::WordMismatch, text))
        },
    }
}

/// Whether `bytes` are the four bytes of `word`, least significant first.
pub fn is_le_bytes_of(bytes: &[u8], word: u32) -> (r: bool)
    ensures
        r == (bytes@ == le_bytes(word)),
{
    if bytes.len() != 4 {
        return false;
    }
    let same = bytes[0] == (word % 256) as u8 && bytes[1] == (word / 256 % 256) as u8 && bytes[2]
        == (word / 65536 % 256) as u8 && bytes[3] == (word / 16777216) as u8;
    proof {
        if same {
            assert(bytes@ =~= le_bytes(word));
        }
    }
    same
}

/// Decides on the raw machine word `word`, written as `text` on line
/// `line_no`, from what the decoder and the encoder made of it.
pub fn accept_raw_word(line_no: usize, text: &str, word: u32, decoded: &Decoded) -> (r: Result<
    Instruction,
    AsmError,
>)
    ensures
        result_view(r) == accept_raw_word_spec(line_no, text@, word, decoded@),
{
    match decoded {
        Decoded::Rejected { reason } => Err(
            AsmError {
                line_no,
                kind: ErrorKind::WordRejected,
                token: text.to_owned(),
                detail: reason.clone(),
            },
        ),
        Decoded::Reencoded { bytes } => if is_le_bytes_of(bytes.as_slice(), word) {
            Ok(Instruction::Word { word })
        } else {
            Err(AsmError::new(line_no, ErrorKind::WordMismatch, text.to_owned()))
        },
    }
}

} // verus!
