//! Sort keys and their order.
//!
//! Every sortable column reduces a row to a key of three parts, compared part by
//! part: a rank, a text (by code point, character by character) and a number.

use vstd::prelude::*;

verus! {

/// A key that rows are ordered by.
pub struct SortKey {
    pub rank: u8,
    pub text: Vec<char>,
    pub number: u64,
}

/// The mathematical value of a `SortKey`.
pub struct KeyView {
    pub rank: nat,
    pub text: Seq<char>,
    pub number: nat,
}

impl View for SortKey {
    type V = KeyView;

    open spec fn view(&self) -> KeyView {
        KeyView { rank: self.rank as nat, text: self.text@, number: self.number as nat }
    }
}

impl DeepView for SortKey {
    type V = KeyView;

    open spec fn deep_view(&self) -> KeyView {
        self@
    }
}

/// How one key stands to another.
#[derive(Clone, Copy, Debug, PartialEq, Eq, Structural)]
pub enum Standing {
    Below,
    Same,
    Above,
}

/// Lexicographic order of texts by code point: `a` is not after `b`.
pub open spec fn text_le(a: Seq<char>, b: Seq<char>) -> bool
    decreases a.len(),
{
    if a.len() == 0 {
        true
    } else if b.len() == 0 {
        false
    } else if a[0] != b[0] {
        (a[0] as int) < (b[0] as int)
    } else {
        text_le(a.drop_first(), b.drop_first())
    }
}

/// Order of keys: by rank, then by text, then by number.
pub open spec fn key_le(a: KeyView, b: KeyView) -> bool {
    if a.rank != b.rank {
        a.rank < b.rank
    } else if a.text != b.text {
        text_le(a.text, b.text)
    } else {
        a.number <= b.number
    }
}

/// The order of keys in the chosen direction.
pub open spec fn directed_le(a: KeyView, b: KeyView, descending: bool) -> bool {
    if descending {
        key_le(b, a)
    } else {
        key_le(a, b)
    }
}

/// `text_le` is reflexive.
pub proof fn lemma_text_le_reflexive(a: Seq<char>)
    ensures
        text_le(a, a),
    decreases a.len(),
{
    if a.len() > 0 {
        lemma_text_le_reflexive(a.drop_first());
    }
}

/// `text_le` compares any two texts.
pub proof fn lemma_text_le_total(a: Seq<char>, b: Seq<char>)
    ensures
        text_le(a, b) || text_le(b, a),
    decreases a.len(),
{
    if a.len() > 0 && b.len() > 0 {
        if a[0] == b[0] {
            lemma_text_le_total(a.drop_first(), b.drop_first());
        }
    }
}

/// Two texts that are each not after the other are the same text.
pub proof fn lemma_text_le_antisymmetric(a: Seq<char>, b: Seq<char>)
    requires
        text_le(a, b),
        text_le(b, a),
    ensures
        a == b,
    decreases a.len(),
{
    if a.len() > 0 && b.len() > 0 {
        lemma_text_le_antisymmetric(a.drop_first(), b.drop_first());
        assert(a =~= seq![a[0]] + a.drop_first());
        assert(b =~= seq![b[0]] + b.drop_first());
    } else {
        assert(a =~= b);
    }
}

/// `text_le` is transitive.
pub proof fn lemma_text_le_transitive(a: Seq<char>, b: Seq<char>, c: Seq<char>)
    requires
        text_le(a, b),
        text_le(b, c),
    ensures
        text_le(a, c),
    decreases a.len(),
{
    if a.len() > 0 && b.len() > 0 && c.len() > 0 && a[0] == b[0] && b[0] == c[0] {
        lemma_text_le_transitive(a.drop_first(), b.drop_first(), c.drop_first());
    }
}

/// Texts that agree on their first `i` characters compare as what follows them.
pub proof fn lemma_text_le_skip(a: Seq<char>, b: Seq<char>, i: int)
    requires
        0 <= i <= a.len(),
        i <= b.len(),
        a.take(i) == b.take(i),
    ensures
        text_le(a, b) == text_le(a.skip(i), b.skip(i)),
    decreases i,
{
    if i == 0 {
        assert(a.skip(0) =~= a);
        assert(b.skip(0) =~= b);
    } else {
        assert(a[0] == a.take(i)[0]);
        assert(b[0] == b.take(i)[0]);
        let a1 = a.drop_first();
        let b1 = b.drop_first();
        let a2 = a1.take(i - 1);
        let b2 = b1.take(i - 1);
        assert(a2 =~= b2) by {
            assert forall|k: int| 0 <= k < i - 1 implies #[trigger] a2[k] == b2[k] by {
                assert(a2[k] == a.take(i)[k + 1]);
                assert(b2[k] == b.take(i)[k + 1]);
            }
        }
        lemma_text_le_skip(a1, b1, i - 1);
        assert(a1.skip(i - 1) =~= a.skip(i));
        assert(b1.skip(i - 1) =~= b.skip(i));
    }
}

/// `key_le` is a total order: reflexive, total, antisymmetric and transitive.
pub proof fn lemma_key_le_total_order(a: KeyView, b: KeyView, c: KeyView)
    ensures
        key_le(a, a),
        key_le(a, b) || key_le(b, a),
        key_le(a, b) && key_le(b, a) ==> a == b,
        key_le(a, b) && key_le(b, c) ==> key_le(a, c),
{
    lemma_text_le_total(a.text, b.text);
    if text_le(a.text, b.text) && text_le(b.text, a.text) {
        lemma_text_le_antisymmetric(a.text, b.text);
    }
    if text_le(a.text, b.text) && text_le(b.text, c.text) {
        lemma_text_le_transitive(a.text, b.text, c.text);
        if a.text == c.text {
            lemma_text_le_antisymmetric(a.text, b.text);
        }
    }
}

/// How the text `a` stands to the text `b`.
pub fn text_standing(a: &Vec<char>, b: &Vec<char>) -> (standing: Standing)
    ensures
        standing == Standing::Same <==> a@ == b@,
        standing == Standing::Below <==> a@ != b@ && text_le(a@, b@),
        standing == Standing::Above <==> !text_le(a@, b@),
{
    let mut i: usize = 0;
    while i < a.len() && i < b.len()
        invariant
            i <= a.len(),
            i <= b.len(),
            a@.take(i as int) == b@.take(i as int),
        decreases a.len() - i,
    {
        if a[i] != b[i] {
            proof {
                lemma_text_le_skip(a@, b@, i as int);
                assert(a@.take(i as int + 1)[i as int] != b@.take(i as int + 1)[i as int]);
            }
            if a[i] < b[i] {
                return Standing::Below;
            } else {
                return Standing::Above;
            }
        }
        proof {
            assert(a@.take(i + 1) =~= a@.take(i as int).push(a@[i as int]));
            assert(b@.take(i + 1) =~= b@.take(i as int).push(b@[i as int]));
        }
        i += 1;
    }
    proof {
        lemma_text_le_skip(a@, b@, i as int);
        lemma_text_le_reflexive(a@);
        if a.len() == b.len() {
            assert(a@ =~= a@.take(i as int));
            assert(b@ =~= b@.take(i as int));
        }
    }
    if a.len() == b.len() {
        Standing::Same
    } else if a.len() < b.len() {
        Standing::Below
    } else {
        Standing::Above
    }
}

/// How the key `a` stands to the key `b`.
pub fn key_standing(a: &SortKey, b: &SortKey) -> (standing: Standing)
    ensures
        standing == Standing::Same <==> a@ == b@,
        standing == Standing::Below <==> a@ != b@ && key_le(a@, b@),
        standing == Standing::Above <==> !key_le(a@, b@),
{
    if a.rank != b.rank {
        if a.rank < b.rank {
            Standing::Below
        } else {
            Standing::Above
        }
    } else {
        match text_standing(&a.text, &b.text) {
            Standing::Below => Standing::Below,
            Standing::Above => Standing::Above,
            Standing::Same => {
                if a.number == b.number {
                    Standing::Same
                } else if a.number < b.number {
                    Standing::Below
                } else {
                    Standing::Above
                }
            },
        }
    }
}

} // verus!
