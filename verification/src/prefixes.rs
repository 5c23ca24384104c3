use vstd::prelude::*;
use vstd::string::StringExecFns;
use crate::base::Base;
use crate::dna::{all_letters, symbols_of};
use crate::literals::{asnat, nat_code};
use crate::pattern::{pattern_code, pattern_view, PItem, PItemView, Pattern};
use crate::template::{template_code, TItem, Template};

verus! {

/// The word that stands in front of the part of the sequence that the
/// prefixes built here work on.
pub open spec fn marker() -> Seq<Base> {
    seq![
        Base::I,
        Base::F,
        Base::P,
        Base::I,
        Base::C,
        Base::F,
        Base::P,
        Base::P,
        Base::C,
        Base::C,
        Base::C,
    ]
}

/// The pattern item that searches for the word which a text of letters
/// spells.
pub fn search(s: &str) -> (item: PItem)
    requires
        all_letters(s@),
    ensures
        item@ == (PItemView::Search { s: symbols_of(s@) }),
{
    let mut word: Vec<Base> = Vec::new();
    for c in it: s.chars()
        invariant
            it.seq() == s@,
            all_letters(s@),
            word@.len() == it.index(),
            forall|j: int| 0 <= j < it.index() ==> Base::of_letter(#[trigger] s@[j]) == Some(word@[j]),
    {
        assert(Base::of_letter(s@[it.index()]) is Some);
        match Base::from_char(c) {
            Ok(b) => {
                word.push(b);
            },
            Err(_) => {},
        }
    }
    assert(word@ =~= symbols_of(s@));
    PItem::Search { s: word }
}

/// The symbols of a run, each as the template item that puts it.
pub open spec fn as_template(symbols: Seq<Base>) -> Seq<TItem> {
    symbols.map_values(|b: Base| TItem::TBase(b))
}

/// The pattern of the prefix that calls a part of the sequence: two
/// captures, one inside the other, each running up to the next marker.
pub open spec fn call_pattern() -> Seq<PItemView> {
    seq![
        PItemView::Open,
        PItemView::Search { s: marker() },
        PItemView::Open,
        PItemView::Search { s: marker() },
        PItemView::Close,
        PItemView::Close,
    ]
}

/// The template of the prefix that calls a part of the sequence: the outer
/// capture, the two numbers as literals, and the inner capture.
pub open spec fn call_template(offset: usize, len: usize) -> Seq<TItem> {
    seq![TItem::Ref { n: 0, l: 0 }] + as_template(nat_code(offset as nat)) + as_template(
        nat_code(len as nat),
    ) + seq![TItem::Ref { n: 1, l: 0 }]
}

/// Puts the symbols of a number literal at the end of a template, each as
/// the item that puts it.
fn push_number(t: &mut Template, number: usize)
    ensures
        final(t)@ == old(t)@ + as_template(nat_code(number as nat)),
{
    let code = asnat(number);
    let mut i: usize = 0;
    assert(as_template(code@.take(0)) == Seq::<TItem>::empty());
    while i < code.len()
        invariant
            i <= code.len(),
            t@ == old(t)@ + as_template(code@.take(i as int)),
        decreases code.len() - i,
    {
        t.push(TItem::TBase(code[i]));
        assert(as_template(code@.take(i + 1)) == as_template(code@.take(i as int)).push(
            TItem::TBase(code@[i as int]),
        ));
        i += 1;
    }
    assert(code@.take(i as int) == code@);
}

/// The prefix that calls the part of the sequence at `offset` and of length
/// `len`: the call pattern and the call template, written down as symbols.
/// A negative number counts as the machine word with the same bits.
pub fn call_gen_prefix(offset: i32, len: i32) -> (prefix: Vec<Base>)
    ensures
        prefix@ == pattern_code(call_pattern()) + template_code(
            call_template(offset as usize, len as usize),
        ),
{
    proof {
        reveal_strlit("IFPICFPPCCC");
        assert(symbols_of("IFPICFPPCCC"@) =~= marker());
    }
    let mut p: Pattern = Vec::new();
    p.push(PItem::Open);
    p.push(search("IFPICFPPCCC"));
    p.push(PItem::Open);
    p.push(search("IFPICFPPCCC"));
    p.push(PItem::Close);
    p.push(PItem::Close);
    assert(pattern_view(p@) =~= call_pattern());
    let mut t: Template = Vec::new();
    t.push(TItem::Ref { n: 0, l: 0 });
    push_number(&mut t, #[verifier::truncate] (offset as usize));
    push_number(&mut t, #[verifier::truncate] (len as usize));
    t.push(TItem::Ref { n: 1, l: 0 });
    assert(t@ =~= call_template(offset as usize, len as usize));
    let mut prefix = crate::pattern::encode(&p);
    let mut tail = crate::template::encode(&t);
    prefix.append(&mut tail);
    prefix
}

/// The binary digits of `n`, lowest first. Zero has the one digit zero.
pub open spec fn digits(n: nat) -> Seq<bool>
    decreases n,
{
    if n < 2 {
        seq![n == 1]
    } else {
        seq![n % 2 == 1] + digits(n / 2)
    }
}

/// A row of as many `C` as there are digits.
pub open spec fn padding(bits: Seq<bool>) -> Seq<char> {
    bits.map_values(|bit: bool| 'C')
}

/// The digits as letters: `F` for a one and `C` for a zero.
pub open spec fn digit_letters(bits: Seq<bool>) -> Seq<char> {
    bits.map_values(|bit: bool| if bit { 'F' } else { 'C' })
}

/// The text of the prefix that opens page `n` of the catalog.
pub open spec fn catalog_page_text(n: nat) -> Seq<char> {
    "IIPIFFCPICFPPICIIC"@ + padding(digits(n)) + "IICIPPP"@ + digit_letters(digits(n)) + "IIC"@
}

/// The text of the prefix that opens page `n` of the catalog.
pub fn catalog_page_prefix(n: u32) -> (text: String)
    ensures
        text@ == catalog_page_text(n as nat),
{
    let mut pad = String::from_str("");
    let mut letters = String::from_str("");
    let mut left = n;
    proof {
        reveal_strlit("");
        reveal_strlit("C");
        reveal_strlit("F");
    }
    let ghost mut done: Seq<bool> = Seq::empty();
    assert(done + digits(n as nat) == digits(n as nat));
    loop
        invariant_except_break
            digits(n as nat) == done + digits(left as nat),
            pad@ == padding(done),
            letters@ == digit_letters(done),
            "C"@ == seq!['C'],
            "F"@ == seq!['F'],
        ensures
            pad@ == padding(digits(n as nat)),
            letters@ == digit_letters(digits(n as nat)),
        decreases left,
    {
        let bit = left % 2 == 1;
        pad.append("C");
        if bit {
            letters.append("F");
        } else {
            letters.append("C");
        }
        proof {
            assert(padding(done.push(bit)) =~= padding(done) + seq!['C']);
            assert(digit_letters(done.push(bit)) =~= digit_letters(done) + seq![
                if bit {
                    'F'
                } else {
                    'C'
                },
            ]);
        }
        if left < 2 {
            proof {
                assert(done + digits(left as nat) == done.push(bit));
            }
            break ;
        }
        proof {
            assert(done + (seq![bit] + digits((left / 2) as nat)) == done.push(bit) + digits(
                (left / 2) as nat,
            ));
            done = done.push(bit);
        }
        left = left / 2;
    }
    let mut text = String::from_str("IIPIFFCPICFPPICIIC");
    text.append(pad.as_str());
    text.append("IICIPPP");
    text.append(letters.as_str());
    text.append("IIC");
    text
}

} // verus!
