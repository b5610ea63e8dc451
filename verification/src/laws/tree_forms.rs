//! The weights of a Huffman tree in each of the forms in which a writer may put them.
use vstd::arithmetic::power2::pow2;
use vstd::prelude::*;

use crate::laws::back_streams::{
    back_form, fields_fit, lemma_back_bits, lemma_back_field, width_of, BitField,
};
use crate::laws::descriptions::{describable, description_form, law_description};
use crate::laws::fse_tables::{law_fse_spread, shares_fill};
use crate::laws::huffman::{law_tree, lemma_tree_ok, weights_form, weights_ok};
use crate::laws::sequences::may_follow;
use crate::zstd::ZstdErrorView;
use crate::zstd_fse::{table_of, FseTableView};
use crate::zstd_huffman::{coded_weights, fse_weights, tree_at, tree_of, HuffmanView};

verus! {

/// How the weights of a tree are written.
pub enum TreeForm {
    /// In four bits each.
    Direct,
    /// In finite state entropy: the accuracy log and the shares of the table, and a state for each
    /// weight but the last symbol's. Two states take turns.
    Coded { log: nat, shares: Seq<i16>, states: Seq<int> },
}

/// The table with the shares.
pub open spec fn table_with(log: nat, shares: Seq<i16>) -> FseTableView {
    table_of(log as int, shares)->Ok_0
}

/// The ways from the states from `i` on to the ones after the next.
pub open spec fn turn_fields(t: FseTableView, states: Seq<int>, i: int) -> Seq<BitField>
    decreases states.len() - i,
{
    if i < 0 || i + 2 >= states.len() {
        seq![]
    } else {
        let e = t.entries[states[i]];
        seq![((states[i + 2] - e.base_state) as nat, e.nb_bits as nat)] + turn_fields(
            t,
            states,
            i + 1,
        )
    }
}

/// The stream of the weights: the first two states, then the ways to the others.
pub open spec fn weights_stream(t: FseTableView, log: nat, states: Seq<int>) -> Seq<BitField> {
    seq![(states[0] as nat, log), (states[1] as nat, log)] + turn_fields(t, states, 0)
}

/// Whether the states give the weights, up to where the stream ends.
pub open spec fn states_give_weights(
    t: FseTableView,
    log: nat,
    states: Seq<int>,
    weights: Seq<u8>,
) -> bool {
    let n = states.len() as int;
    &&& 2 <= n <= 255
    &&& n == weights.len()
    &&& forall|i: int|
        #![trigger states[i]]
        0 <= i < n ==> 0 <= states[i] < pow2(log) && t.entries[states[i]].symbol == weights[i]
    &&& forall|i: int|
        #![trigger states[i]]
        0 <= i && i + 2 < n ==> may_follow(t, states[i], states[i + 2])
    &&& t.entries[states[n - 2]].nb_bits > 0
}

/// The bytes of a tree's weights.
pub open spec fn tree_form(weights: Seq<u8>, form: TreeForm) -> Seq<u8> {
    match form {
        TreeForm::Direct => weights_form(weights),
        TreeForm::Coded { log, shares, states } => {
            let body = description_form(log, shares) + back_form(
                weights_stream(table_with(log, shares), log, states),
            );
            seq![body.len() as u8] + body
        },
    }
}

/// Whether the weights can be written so.
pub open spec fn tree_form_ok(weights: Seq<u8>, form: TreeForm) -> bool {
    match form {
        TreeForm::Direct => weights.len() <= 129,
        TreeForm::Coded { log, shares, states } => {
            let body = description_form(log, shares) + back_form(
                weights_stream(table_with(log, shares), log, states),
            );
            &&& body.len() < 128
            &&& shares_fill(log, shares)
            &&& describable(log, shares, 6, 255)
            &&& states_give_weights(table_with(log, shares), log, states, weights.drop_last())
        },
    }
}

proof fn lemma_turns_fit(
    t: FseTableView,
    log: nat,
    states: Seq<int>,
    weights: Seq<u8>,
    i: int,
)
    requires
        states_give_weights(t, log, states, weights),
        0 <= i,
    ensures
        fields_fit(turn_fields(t, states, i)),
    decreases states.len() - i,
{
    if i + 2 < states.len() {
        lemma_turns_fit(t, log, states, weights, i + 1);
        assert(may_follow(t, states[i], states[i + 2]));
        let rest = turn_fields(t, states, i + 1);
        let f = turn_fields(t, states, i);
        assert forall|j: int| #![trigger f[j]] 0 <= j < f.len() implies f[j].0 < pow2(f[j].1) by {
            if j > 0 {
                assert(f[j] == rest[j - 1]);
            }
        }
    }
}

proof fn lemma_turns(
    t: FseTableView,
    log: nat,
    states: Seq<int>,
    weights: Seq<u8>,
    f: Seq<BitField>,
    j: int,
    i: int,
)
    requires
        states_give_weights(t, log, states, weights),
        fields_fit(f),
        0 <= j <= f.len(),
        0 <= i <= states.len() - 2,
        f.skip(j) == turn_fields(t, states, i),
    ensures
        coded_weights(
            t,
            back_form(f),
            width_of(f.skip(j)) as int,
            states[i],
            states[i + 1],
            weights.take(i),
        ) == Ok::<Seq<u8>, ZstdErrorView>(weights),
    decreases states.len() - i,
{
    let n = states.len() as int;
    let e = t.entries[states[i]];
    assert(e.symbol == weights[i]);
    assert(weights.take(i).push(e.symbol) =~= weights.take(i + 1));
    if i + 2 < n {
        let rest = turn_fields(t, states, i + 1);
        let s = f.skip(j);
        assert(s.len() == 1 + rest.len());
        assert(f[j] == s[0]);
        assert(f.skip(j + 1) =~= rest) by {
            assert forall|k: int| 0 <= k < rest.len() implies f[j + 1 + k] == rest[k] by {
                assert(f[j + 1 + k] == s[1 + k]);
            }
        }
        assert(may_follow(t, states[i], states[i + 2]));
        lemma_back_field(f, j);
        lemma_turns(t, log, states, weights, f, j + 1, i + 1);
    } else {
        assert(width_of(f.skip(j)) == 0);
        assert(t.entries[states[i + 1]].symbol == weights[i + 1]);
        assert(weights.take(i + 1).push(weights[i + 1]) =~= weights);
    }
}

proof fn lemma_coded(log: nat, shares: Seq<i16>, states: Seq<int>, weights: Seq<u8>)
    requires
        shares_fill(log, shares),
        describable(log, shares, 6, 255),
        states_give_weights(table_with(log, shares), log, states, weights),
    ensures
        fse_weights(
            description_form(log, shares) + back_form(
                weights_stream(table_with(log, shares), log, states),
            ),
        ) == Ok::<Seq<u8>, ZstdErrorView>(weights),
{
    let t = table_with(log, shares);
    let f = weights_stream(t, log, states);
    let s = back_form(f);
    let d = description_form(log, shares);
    let b = d + s;
    law_fse_spread(log, shares);
    law_description(log, shares, 6, 255, s);
    assert(b.skip(d.len() as int) =~= s);
    lemma_turns_fit(t, log, states, weights, 0);
    let rest = turn_fields(t, states, 0);
    assert(0 <= states[0] < pow2(log) && 0 <= states[1] < pow2(log));
    assert(fields_fit(f)) by {
        assert forall|j: int| #![trigger f[j]] 0 <= j < f.len() implies f[j].0 < pow2(f[j].1) by {
            if j >= 2 {
                assert(f[j] == rest[j - 2]);
            }
        }
    }
    lemma_back_bits(f);
    assert(f.skip(0) =~= f);
    assert(f.skip(2) =~= rest);
    lemma_back_field(f, 0);
    lemma_back_field(f, 1);
    lemma_turns(t, log, states, weights, f, 2, 0);
    assert(weights.take(0) =~= seq![]);
}

/// A tree is read from the weights of its symbols in whichever form they are written, whatever follows
/// them.
pub proof fn law_tree_form(weights: Seq<u8>, max: nat, form: TreeForm, after: Seq<u8>)
    requires
        weights_ok(weights, max),
        tree_form_ok(weights, form),
    ensures
        tree_of(weights.drop_last()) is Ok,
        tree_at(tree_form(weights, form) + after) == Ok::<(HuffmanView, int), ZstdErrorView>(
            (tree_of(weights.drop_last())->Ok_0, tree_form(weights, form).len() as int),
        ),
{
    match form {
        TreeForm::Direct => law_tree(weights, max, after),
        TreeForm::Coded { log, shares, states } => {
            let body = description_form(log, shares) + back_form(
                weights_stream(table_with(log, shares), log, states),
            );
            let b = tree_form(weights, form) + after;
            lemma_tree_ok(weights, max);
            lemma_coded(log, shares, states, weights.drop_last());
            assert(b[0] == body.len());
            assert(b.subrange(1, 1 + body.len() as int) =~= body);
        },
    }
}

} // verus!
