//! What the Mermaid rendering guarantees of node aliases: they consist of
//! ASCII letters, ASCII digits and `_` only, and an id keeps exactly those of
//! its characters.
use vstd::prelude::*;
use crate::graph::{GraphNode, mermaid_alias, sanitize};
use crate::text::decimal;

verus! {

/// `c` is an ASCII letter, an ASCII digit or `_`.
pub open spec fn ascii_word_char(c: char) -> bool {
    ||| 48 <= (c as int) <= 57
    ||| 65 <= (c as int) <= 90
    ||| 97 <= (c as int) <= 122
    ||| (c as int) == 95
}

proof fn lemma_decimal_digits(n: nat)
    ensures
        decimal(n).len() > 0,
        forall|k: int| 0 <= k < decimal(n).len() ==> 48 <= (#[trigger] decimal(n)[k] as int) <= 57,
    decreases n,
{
    if n >= 10 {
        lemma_decimal_digits(n / 10);
        let d = decimal(n / 10);
        assert forall|k: int| 0 <= k < decimal(n).len() implies 48 <= (#[trigger] decimal(n)[k] as int) <= 57 by {
            if k < d.len() {
                assert(decimal(n)[k] == d[k]);
            }
        }
    }
}

/// Sanitising an id for Mermaid keeps each ASCII letter, ASCII digit and `_`
/// in place and turns every other character into `_`; an empty id becomes
/// `node`.
pub proof fn lemma_sanitize_keeps_word_chars(id: Seq<char>)
    ensures
        id.len() > 0 ==> sanitize(id).len() == id.len(),
        id.len() > 0 ==> forall|k: int| 0 <= k < id.len() ==>
            #[trigger] sanitize(id)[k] == if ascii_word_char(id[k]) { id[k] } else { '_' },
        id.len() == 0 ==> sanitize(id) == "node"@,
{
}

/// Every Mermaid node alias is a non-empty word of ASCII letters, ASCII
/// digits and `_`, so it is a valid Mermaid identifier whatever the node's id.
pub proof fn lemma_mermaid_alias_chars(nodes: Seq<GraphNode>, i: int)
    requires
        0 <= i < nodes.len(),
    ensures
        mermaid_alias(nodes, i).len() > 0,
        forall|k: int| 0 <= k < mermaid_alias(nodes, i).len() ==> ascii_word_char(#[trigger] mermaid_alias(nodes, i)[k]),
{
    reveal_strlit("n");
    reveal_strlit("_");
    reveal_strlit("node");
    let a = "n"@;
    let d = decimal(i as nat);
    let u = "_"@;
    let s = sanitize(nodes[i].id@);
    lemma_decimal_digits(i as nat);
    lemma_sanitize_keeps_word_chars(nodes[i].id@);
    let alias = mermaid_alias(nodes, i);
    assert(alias == a + d + u + s);
    assert forall|k: int| 0 <= k < alias.len() implies ascii_word_char(#[trigger] alias[k]) by {
        if k == 0 {
            assert(alias[k] == a[0]);
        } else if k < 1 + d.len() {
            assert(alias[k] == d[k - 1]);
        } else if k == 1 + d.len() {
            assert(alias[k] == u[0]);
        } else {
            let j = k - 2 - d.len();
            assert(alias[k] == s[j]);
            if nodes[i].id@.len() == 0 {
                assert(s == "node"@);
            } else {
                assert(s[j] == if ascii_word_char(nodes[i].id@[j]) { nodes[i].id@[j] } else { '_' });
            }
        }
    }
}

} // verus!
