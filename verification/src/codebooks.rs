//! Selection of entropy codebooks.
//!
//! There are eighteen codebooks: for each of six symbol ranges one for absolute
//! values and two for differences, along frequency and along time. A difference
//! codebook covers the differences of the range symmetrically around zero.
use vstd::prelude::*;
use crate::huffman::{Codeword, HuffmanTable};
use crate::tables::{AspxCodebook, EnvelopeKind, HcbType, StereoMode};

verus! {

/// Number of codebooks.
pub const NUM_CODEBOOKS: usize = 18;

/// Number of absolute values in each of the six symbol ranges: signal levels in
/// fine and coarse steps, signal balances in fine and coarse steps, noise
/// levels, and noise balances.
pub const SYMBOL_RANGES: [u8; 6] = [71, 36, 25, 13, 30, 13];

/// Which of the six symbol ranges a codebook belongs to.
pub open spec fn range_of(book: AspxCodebook) -> int {
    match book.kind {
        EnvelopeKind::Signal => (if book.stereo == StereoMode::Level {
            0int
        } else {
            2
        }) + (if book.coarse_quant == Some(false) {
            0int
        } else {
            1
        }),
        EnvelopeKind::Noise => if book.stereo == StereoMode::Level {
            4
        } else {
            5
        },
    }
}

/// Position of a codebook among the eighteen: the three of each range follow
/// each other, absolute values first, differences along time last.
pub open spec fn codebook_position(book: AspxCodebook) -> int {
    3 * range_of(book) + (match book.hcb_type {
        HcbType::F0 => 0int,
        HcbType::Df => 1,
        HcbType::Dt => 2,
    })
}

/// Number of symbols of the codebook at a position.
pub open spec fn symbol_count(position: int) -> int {
    let absolute = SYMBOL_RANGES@[position / 3] as int;
    if position % 3 == 0 {
        absolute
    } else {
        2 * absolute - 1
    }
}

/// What is subtracted from the symbols of a codebook: nothing for absolute
/// values, and for differences the largest one.
pub open spec fn codebook_offset(book: AspxCodebook) -> int {
    match book.hcb_type {
        HcbType::F0 => 0,
        _ => SYMBOL_RANGES@[range_of(book)] - 1,
    }
}

/// A full set of codebooks.
#[derive(Debug)]
pub struct AspxCodebooks {
    tables: Vec<HuffmanTable>,
}

impl View for AspxCodebooks {
    type V = Seq<Seq<Codeword>>;

    closed spec fn view(&self) -> Seq<Seq<Codeword>> {
        Seq::new(self.tables@.len(), |i: int| self.tables@[i]@)
    }
}

/// Whether there is one codebook for every position, with the right number of
/// symbols.
pub open spec fn is_codebook_set(tables: Seq<Seq<Codeword>>) -> bool {
    &&& tables.len() == NUM_CODEBOOKS
    &&& forall|i: int| 0 <= i < NUM_CODEBOOKS ==> (#[trigger] tables[i]).len() == symbol_count(i)
}

/// Position of a codebook among the eighteen.
#[must_use]
pub fn codebook_index(book: AspxCodebook) -> (index: usize)
    ensures
        index == codebook_position(book),
        index < NUM_CODEBOOKS,
{
    let range: usize = match book.kind {
        EnvelopeKind::Signal => {
            let base: usize = match book.stereo {
                StereoMode::Level => 0,
                StereoMode::Balance => 2,
            };
            match book.coarse_quant {
                Some(false) => base,
                _ => base + 1,
            }
        },
        EnvelopeKind::Noise => match book.stereo {
            StereoMode::Level => 4,
            StereoMode::Balance => 5,
        },
    };
    let role: usize = match book.hcb_type {
        HcbType::F0 => 0,
        HcbType::Df => 1,
        HcbType::Dt => 2,
    };
    3 * range + role
}

/// Number of symbols of the codebook at a position.
fn expected_symbols(position: usize) -> (count: usize)
    requires
        position < NUM_CODEBOOKS,
    ensures
        count == symbol_count(position as int),
{
    let ghost ranges = SYMBOL_RANGES@;
    assert(ranges[0] == 71 && ranges[1] == 36 && ranges[2] == 25 && ranges[3] == 13 && ranges[4]
        == 30 && ranges[5] == 13);
    let absolute: usize = SYMBOL_RANGES[position / 3] as usize;
    if position % 3 == 0 {
        absolute
    } else {
        2 * absolute - 1
    }
}

impl AspxCodebooks {
    #[verifier::type_invariant]
    spec fn well_formed(self) -> bool {
        is_codebook_set(self@)
    }

    /// Gathers a set of codebooks, if there is one for every position and each
    /// has the right number of symbols.
    pub fn new(tables: Vec<HuffmanTable>) -> (result: Option<AspxCodebooks>)
        ensures
            match result {
                Some(books) => {
                    &&& books@ == Seq::new(tables@.len(), |i: int| tables@[i]@)
                    &&& is_codebook_set(books@)
                },
                None => !is_codebook_set(Seq::new(tables@.len(), |i: int| tables@[i]@)),
            },
    {
        let ghost view = Seq::new(tables@.len(), |i: int| tables@[i]@);
        if tables.len() != NUM_CODEBOOKS {
            return None;
        }
        let mut i: usize = 0;
        while i < NUM_CODEBOOKS
            invariant
                i <= NUM_CODEBOOKS == tables@.len(),
                view == Seq::new(tables@.len(), |i: int| tables@[i]@),
                forall|k: int| 0 <= k < i ==> (#[trigger] view[k]).len() == symbol_count(k),
            decreases NUM_CODEBOOKS - i,
        {
            if tables[i].len() != expected_symbols(i) {
                assert(view[i as int].len() != symbol_count(i as int));
                return None;
            }
            i = i + 1;
        }
        Some(AspxCodebooks { tables })
    }

    /// The codebook at a position.
    #[must_use]
    pub fn table(&self, index: usize) -> (table: Option<&HuffmanTable>)
        ensures
            match table {
                Some(table) => index < NUM_CODEBOOKS && table@ == self@[index as int],
                None => index >= NUM_CODEBOOKS,
            },
    {
        proof {
            use_type_invariant(self);
        }
        if index < self.tables.len() {
            Some(&self.tables[index])
        } else {
            None
        }
    }
}

/// The codebook that an identifier names.
#[must_use]
pub fn table_for<'a>(books: &'a AspxCodebooks, book: AspxCodebook) -> (table: &'a HuffmanTable)
    ensures
        table@ == books@[codebook_position(book)],
        is_codebook_set(books@),
{
    proof {
        use_type_invariant(books);
    }
    &books.tables[codebook_index(book)]
}

/// What is subtracted from the symbols of a codebook.
///
/// Half of the symbols of a difference codebook stand for negative differences.
#[must_use]
pub fn cb_off(books: &AspxCodebooks, book: AspxCodebook) -> (offset: i16)
    ensures
        offset == codebook_offset(book),
{
    match book.hcb_type {
        HcbType::F0 => 0,
        HcbType::Df | HcbType::Dt => {
            let len: usize = table_for(books, book).len();
            proof {
                let ranges = SYMBOL_RANGES@;
                assert(ranges[0] == 71 && ranges[1] == 36 && ranges[2] == 25 && ranges[3] == 13
                    && ranges[4] == 30 && ranges[5] == 13);
                assert(books@[codebook_position(book)].len() == symbol_count(
                    codebook_position(book),
                ));
            }
            ((len - 1) / 2) as i16
        },
    }
}

/// Identifiers that differ name different codebooks.
pub proof fn lemma_identifiers_are_distinct(
    a_kind: EnvelopeKind,
    a_stereo: StereoMode,
    a_coarse: bool,
    a_type: HcbType,
    b_kind: EnvelopeKind,
    b_stereo: StereoMode,
    b_coarse: bool,
    b_type: HcbType,
)
    ensures
        ({
            let a = crate::tables::aspx_hcb(a_kind, a_stereo, a_coarse, a_type);
            let b = crate::tables::aspx_hcb(b_kind, b_stereo, b_coarse, b_type);
            &&& 0 <= codebook_position(a) < NUM_CODEBOOKS
            &&& codebook_position(a) == codebook_position(b) ==> a == b
        }),
{
}

/// The differences that a difference codebook covers are symmetric around zero,
/// and there are twice as many of them, less one, as there are absolute values.
pub proof fn lemma_differences_are_symmetric(book: AspxCodebook)
    requires
        book.hcb_type != HcbType::F0,
    ensures
        ({
            let absolute = AspxCodebook { hcb_type: HcbType::F0, ..book };
            let count = symbol_count(codebook_position(book));
            &&& count == 2 * symbol_count(codebook_position(absolute)) - 1
            &&& codebook_offset(book) == (count - 1) / 2
            &&& 0 - codebook_offset(book) == -(count - 1 - codebook_offset(book))
        }),
{
}

} // verus!
