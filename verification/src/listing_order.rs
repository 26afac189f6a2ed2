//! The order in which a directory listing is shown: directories first, then
//! by lowercased name, keeping the scan order among equal keys.

use vstd::prelude::*;
use vstd::utf8::encode_utf8;
use crate::file_browser::{forest_view, lemma_forest_view_index, node_view, NodeView, TreeNode};
use crate::text::{lowercase_of, to_lowercase};

verus! {

/// Lexicographic order of byte strings, the order of `String`'s `Ord`.
pub open spec fn bytes_le(a: Seq<u8>, b: Seq<u8>) -> bool
    decreases a.len(),
{
    if a.len() == 0 {
        true
    } else if b.len() == 0 {
        false
    } else if a[0] != b[0] {
        a[0] < b[0]
    } else {
        bytes_le(a.drop_first(), b.drop_first())
    }
}

/// The name part of the sort key: the lowercased name as UTF-8 bytes.
pub open spec fn name_key(n: NodeView) -> Seq<u8> {
    encode_utf8(lowercase_of(n.name))
}

/// An entry (a directory or not) with sort key `ka` may come before one with
/// key `kb`: directories before files, then by key.
pub open spec fn keyed_le(a_dir: bool, ka: Seq<u8>, b_dir: bool, kb: Seq<u8>) -> bool {
    (a_dir && !b_dir) || (a_dir == b_dir && bytes_le(ka, kb))
}

/// Entry `p` of `input`, with key `keys[p]`, may come before entry `q`.
pub open spec fn entry_le(input: Seq<NodeView>, keys: Seq<Seq<u8>>, p: int, q: int) -> bool {
    keyed_le(input[p].is_directory, keys[p], input[q].is_directory, keys[q])
}

/// `output` is `input` reordered by `perm` (output position to input position),
/// sorted by the entries' kinds and `keys`, with entries of equal kind and key
/// in their input order.
pub open spec fn keyed_stable_perm(
    input: Seq<NodeView>,
    keys: Seq<Seq<u8>>,
    output: Seq<NodeView>,
    perm: Seq<int>,
) -> bool {
    &&& output.len() == input.len()
    &&& keys.len() == input.len()
    &&& perm.len() == input.len()
    &&& forall|k: int| 0 <= k < perm.len() ==> 0 <= #[trigger] perm[k] < input.len()
    &&& forall|k: int, l: int| 0 <= k < l < perm.len() ==> perm[k] != perm[l]
    &&& forall|k: int| 0 <= k < output.len() ==> #[trigger] output[k] == input[perm[k]]
    &&& forall|k: int, l: int|
        0 <= k < l < perm.len() ==> entry_le(input, keys, #[trigger] perm[k], #[trigger] perm[l])
    &&& forall|k: int, l: int|
        0 <= k < l < perm.len() && entry_le(input, keys, #[trigger] perm[l], #[trigger] perm[k])
            ==> perm[k] < perm[l]
}

/// `output` is `input` stably sorted by kind (directories first) and `keys`.
pub open spec fn is_keyed_listing_order(
    input: Seq<NodeView>,
    keys: Seq<Seq<u8>>,
    output: Seq<NodeView>,
) -> bool {
    exists|perm: Seq<int>| keyed_stable_perm(input, keys, output, perm)
}

/// The name keys of a listing.
pub open spec fn name_keys(input: Seq<NodeView>) -> Seq<Seq<u8>> {
    input.map_values(|n: NodeView| name_key(n))
}

/// `output` is the listing order of `input`: a stable sort, directories
/// first, then by lowercased name.
pub open spec fn is_listing_order(input: Seq<NodeView>, output: Seq<NodeView>) -> bool {
    is_keyed_listing_order(input, name_keys(input), output)
}

/// Sort keys given as text, as UTF-8 bytes.
pub open spec fn utf8_keys(keys: Seq<String>) -> Seq<Seq<u8>> {
    keys.map_values(|k: String| encode_utf8(k@))
}

/// Byte strings are always comparable.
pub proof fn lemma_bytes_le_total(a: Seq<u8>, b: Seq<u8>)
    ensures
        bytes_le(a, b) || bytes_le(b, a),
    decreases a.len(),
{
    if a.len() > 0 && b.len() > 0 && a[0] == b[0] {
        lemma_bytes_le_total(a.drop_first(), b.drop_first());
    }
}

/// The byte order is transitive.
pub proof fn lemma_bytes_le_transitive(a: Seq<u8>, b: Seq<u8>, c: Seq<u8>)
    requires
        bytes_le(a, b),
        bytes_le(b, c),
    ensures
        bytes_le(a, c),
    decreases a.len(),
{
    if a.len() > 0 && b.len() > 0 && c.len() > 0 && a[0] == b[0] && b[0] == c[0] {
        lemma_bytes_le_transitive(a.drop_first(), b.drop_first(), c.drop_first());
    }
}

/// The keyed order is total.
pub proof fn lemma_keyed_le_total(ad: bool, ka: Seq<u8>, bd: bool, kb: Seq<u8>)
    ensures
        keyed_le(ad, ka, bd, kb) || keyed_le(bd, kb, ad, ka),
{
    lemma_bytes_le_total(ka, kb);
}

/// The keyed order is transitive.
pub proof fn lemma_keyed_le_transitive(
    ad: bool,
    ka: Seq<u8>,
    bd: bool,
    kb: Seq<u8>,
    cd: bool,
    kc: Seq<u8>,
)
    requires
        keyed_le(ad, ka, bd, kb),
        keyed_le(bd, kb, cd, kc),
    ensures
        keyed_le(ad, ka, cd, kc),
{
    if ad == bd && bd == cd {
        lemma_bytes_le_transitive(ka, kb, kc);
    }
}

/// Inserting an entry right after every entry it may follow keeps a stable
/// order.
proof fn lemma_insert_stable(
    input: Seq<NodeView>,
    keys: Seq<Seq<u8>>,
    output: Seq<NodeView>,
    perm: Seq<int>,
    x: NodeView,
    kx: Seq<u8>,
    pos: int,
)
    requires
        keyed_stable_perm(input, keys, output, perm),
        0 <= pos <= output.len(),
        forall|k: int|
            0 <= k < pos ==> keyed_le(
                input[#[trigger] perm[k]].is_directory,
                keys[perm[k]],
                x.is_directory,
                kx,
            ),
        forall|k: int|
            pos <= k < output.len() ==> !keyed_le(
                input[#[trigger] perm[k]].is_directory,
                keys[perm[k]],
                x.is_directory,
                kx,
            ),
    ensures
        keyed_stable_perm(
            input.push(x),
            keys.push(kx),
            output.insert(pos, x),
            perm.insert(pos, input.len() as int),
        ),
{
    let inp = input.push(x);
    let ks = keys.push(kx);
    let out = output.insert(pos, x);
    let p = perm.insert(pos, input.len() as int);
    let n = input.len() as int;
    assert forall|q: int| 0 <= q < n implies #[trigger] inp[q] == input[q] && ks[q] == keys[q] by {}
    assert(inp[n] == x && ks[n] == kx);
    assert forall|k: int| 0 <= k < p.len() implies 0 <= #[trigger] p[k] < inp.len() by {
        if k < pos {
            assert(p[k] == perm[k]);
        } else if k > pos {
            assert(p[k] == perm[k - 1]);
        }
    }
    assert forall|k: int| 0 <= k < out.len() implies #[trigger] out[k] == inp[p[k]] by {
        if k < pos {
            assert(out[k] == output[k] && p[k] == perm[k]);
        } else if k > pos {
            assert(out[k] == output[k - 1] && p[k] == perm[k - 1]);
        }
    }
    assert forall|k: int, l: int| 0 <= k < l < p.len() implies p[k] != p[l] by {
        let k2 = if k < pos { k } else { k - 1 };
        let l2 = if l < pos { l } else { l - 1 };
        if k != pos && l != pos {
            assert(p[k] == perm[k2] && p[l] == perm[l2]);
        } else if k == pos {
            assert(p[l] == perm[l2]);
        } else {
            assert(p[k] == perm[k2]);
        }
    }
    assert forall|k: int, l: int| 0 <= k < l < p.len() implies entry_le(
        inp,
        ks,
        #[trigger] p[k],
        #[trigger] p[l],
    ) by {
        if l < pos {
            assert(p[k] == perm[k] && p[l] == perm[l]);
            assert(entry_le(input, keys, perm[k], perm[l]));
        } else if l == pos {
            assert(p[k] == perm[k]);
        } else if k == pos {
            assert(p[l] == perm[l - 1]);
            lemma_keyed_le_total(
                input[perm[l - 1]].is_directory,
                keys[perm[l - 1]],
                x.is_directory,
                kx,
            );
        } else if k < pos {
            assert(p[k] == perm[k] && p[l] == perm[l - 1]);
            assert(entry_le(input, keys, perm[k], perm[l - 1]));
        } else {
            assert(p[k] == perm[k - 1] && p[l] == perm[l - 1]);
            assert(entry_le(input, keys, perm[k - 1], perm[l - 1]));
        }
    }
    assert forall|k: int, l: int|
        0 <= k < l < p.len() && entry_le(inp, ks, #[trigger] p[l], #[trigger] p[k]) implies p[k]
        < p[l] by {
        if l < pos {
            assert(p[k] == perm[k] && p[l] == perm[l]);
            assert(entry_le(input, keys, perm[l], perm[k]));
        } else if l == pos {
            assert(p[k] == perm[k]);
        } else if k == pos {
            assert(p[l] == perm[l - 1]);
        } else if k < pos {
            assert(p[k] == perm[k] && p[l] == perm[l - 1]);
            assert(entry_le(input, keys, perm[l - 1], perm[k]));
        } else {
            assert(p[k] == perm[k - 1] && p[l] == perm[l - 1]);
            assert(entry_le(input, keys, perm[l - 1], perm[k - 1]));
        }
    }
}

/// Compares byte strings lexicographically.
fn bytes_le_exec(a: &[u8], b: &[u8]) -> (r: bool)
    ensures
        r == bytes_le(a@, b@),
{
    let mut i: usize = 0;
    proof {
        assert(a@.skip(0) =~= a@);
        assert(b@.skip(0) =~= b@);
    }
    while i < a.len() && i < b.len()
        invariant
            i <= a@.len(),
            i <= b@.len(),
            bytes_le(a@, b@) == bytes_le(a@.skip(i as int), b@.skip(i as int)),
        decreases a@.len() - i,
    {
        if a[i] != b[i] {
            proof {
                assert(a@.skip(i as int)[0] == a@[i as int]);
                assert(b@.skip(i as int)[0] == b@[i as int]);
            }
            return a[i] < b[i];
        }
        proof {
            assert(a@.skip(i as int).drop_first() =~= a@.skip(i + 1));
            assert(b@.skip(i as int).drop_first() =~= b@.skip(i + 1));
            assert(a@.skip(i as int)[0] == a@[i as int]);
            assert(b@.skip(i as int)[0] == b@[i as int]);
        }
        i += 1;
    }
    i == a.len()
}

/// Whether an entry with the given kind and key may come before another.
fn keyed_le_exec(a_dir: bool, a_key: &String, b_dir: bool, b_key: &String) -> (r: bool)
    ensures
        r == keyed_le(a_dir, encode_utf8(a_key@), b_dir, encode_utf8(b_key@)),
{
    if a_dir && !b_dir {
        return true;
    }
    if a_dir != b_dir {
        return false;
    }
    bytes_le_exec(a_key.as_str().as_bytes(), b_key.as_str().as_bytes())
}

/// Sort listing entries stably by kind (directories first) and then by the
/// given keys (one per entry, compared as UTF-8 bytes).
pub fn sort_by_keys(entries: Vec<TreeNode>, keys: Vec<String>) -> (r: Vec<TreeNode>)
    requires
        keys@.len() == entries@.len(),
    ensures
        is_keyed_listing_order(forest_view(entries@), utf8_keys(keys@), forest_view(r@)),
{
    let ghost fv = forest_view(entries@);
    let ghost ks = utf8_keys(keys@);
    proof {
        lemma_forest_view_index(entries@);
    }
    let n: usize = entries.len();
    let mut input = entries;
    let mut out: Vec<TreeNode> = Vec::new();
    let mut out_keys: Vec<String> = Vec::new();
    let ghost mut perm: Seq<int> = Seq::empty();
    let mut i: usize = 0;
    proof {
        assert(forest_view(input@) =~= fv.skip(0));
        lemma_forest_view_index(out@);
        assert(keyed_stable_perm(fv.take(0), ks.take(0), forest_view(out@), perm));
    }
    while i < n
        invariant
            n == fv.len(),
            n == keys@.len(),
            ks == utf8_keys(keys@),
            i <= n,
            forest_view(input@) == fv.skip(i as int),
            input@.len() == n - i,
            out@.len() == i,
            out_keys@.len() == i,
            keyed_stable_perm(fv.take(i as int), ks.take(i as int), forest_view(out@), perm),
            forall|k: int|
                0 <= k < i ==> encode_utf8(#[trigger] out_keys@[k]@) == ks[perm[k]],
        decreases n - i,
    {
        let ghost out_v = forest_view(out@);
        let ghost inp = fv.take(i as int);
        let ghost kin = ks.take(i as int);
        proof {
            lemma_forest_view_index(input@);
            lemma_forest_view_index(out@);
        }
        let ghost in_before = input@;
        let x = input.remove(0);
        let xkey = keys[i].clone();
        let ghost xv = node_view(x);
        proof {
            assert(x == in_before[0]);
            assert(forest_view(in_before)[0] == node_view(in_before[0]));
            assert(fv.skip(i as int)[0] == fv[i as int]);
            assert(xv == fv[i as int]);
            assert(encode_utf8(xkey@) == ks[i as int]);
            assert(forest_view(input@) =~= fv.skip(i + 1)) by {
                lemma_forest_view_index(input@);
                lemma_forest_view_index(in_before);
                assert forall|k: int| 0 <= k < input@.len() implies #[trigger] forest_view(
                    input@,
                )[k] == fv.skip(i + 1)[k] by {
                    assert(input@[k] == in_before[k + 1]);
                    assert(fv.skip(i as int)[k + 1] == fv.skip(i + 1)[k]);
                }
            }
            assert forall|k: int| 0 <= k < out@.len() implies #[trigger] out_v[k].is_directory
                == inp[perm[k]].is_directory by {
                assert(out_v[k] == inp[perm[k]]);
            }
            assert forall|k: int| 0 <= k < out@.len() implies encode_utf8(#[trigger] out_keys@[k]@)
                == kin[perm[k]] by {
                assert(ks[perm[k]] == kin[perm[k]]);
            }
        }
        // Binary search for the first position whose entry must come after `x`.
        let mut lo: usize = 0;
        let mut hi: usize = out.len();
        while lo < hi
            invariant
                0 <= lo <= hi <= out@.len(),
                out_v == forest_view(out@),
                out_v.len() == out@.len(),
                forall|k: int| 0 <= k < out@.len() ==> #[trigger] out_v[k] == node_view(out@[k]),
                out_keys@.len() == out@.len(),
                keyed_stable_perm(inp, kin, out_v, perm),
                forall|k: int|
                    0 <= k < out@.len() ==> #[trigger] out_v[k].is_directory
                        == inp[perm[k]].is_directory,
                forall|k: int|
                    0 <= k < out@.len() ==> encode_utf8(#[trigger] out_keys@[k]@) == kin[perm[k]],
                xv.is_directory == x.is_directory,
                forall|k: int|
                    0 <= k < lo ==> keyed_le(
                        inp[#[trigger] perm[k]].is_directory,
                        kin[perm[k]],
                        xv.is_directory,
                        encode_utf8(xkey@),
                    ),
                forall|k: int|
                    hi <= k < out_v.len() ==> !keyed_le(
                        inp[#[trigger] perm[k]].is_directory,
                        kin[perm[k]],
                        xv.is_directory,
                        encode_utf8(xkey@),
                    ),
            decreases hi - lo,
        {
            let mid: usize = lo + (hi - lo) / 2;
            let le = keyed_le_exec(out[mid].is_directory, &out_keys[mid], x.is_directory, &xkey);
            proof {
                assert(out_v[mid as int] == node_view(out@[mid as int]));
                assert(out_v[mid as int].is_directory == inp[perm[mid as int]].is_directory);
                assert(encode_utf8(out_keys@[mid as int]@) == kin[perm[mid as int]]);
            }
            if le {
                proof {
                    assert forall|k: int| 0 <= k <= mid implies keyed_le(
                        inp[#[trigger] perm[k]].is_directory,
                        kin[perm[k]],
                        xv.is_directory,
                        encode_utf8(xkey@),
                    ) by {
                        if k < mid {
                            assert(entry_le(inp, kin, perm[k], perm[mid as int]));
                            lemma_keyed_le_transitive(
                                inp[perm[k]].is_directory,
                                kin[perm[k]],
                                inp[perm[mid as int]].is_directory,
                                kin[perm[mid as int]],
                                xv.is_directory,
                                encode_utf8(xkey@),
                            );
                        }
                    }
                }
                lo = mid + 1;
            } else {
                proof {
                    assert forall|k: int| mid <= k < out_v.len() implies !keyed_le(
                        inp[#[trigger] perm[k]].is_directory,
                        kin[perm[k]],
                        xv.is_directory,
                        encode_utf8(xkey@),
                    ) by {
                        if k > mid && keyed_le(
                            inp[perm[k]].is_directory,
                            kin[perm[k]],
                            xv.is_directory,
                            encode_utf8(xkey@),
                        ) {
                            assert(entry_le(inp, kin, perm[mid as int], perm[k]));
                            lemma_keyed_le_transitive(
                                inp[perm[mid as int]].is_directory,
                                kin[perm[mid as int]],
                                inp[perm[k]].is_directory,
                                kin[perm[k]],
                                xv.is_directory,
                                encode_utf8(xkey@),
                            );
                        }
                    }
                }
                hi = mid;
            }
        }
        let ghost old_out = out@;
        let ghost old_keys = out_keys@;
        out.insert(lo, x);
        out_keys.insert(lo, xkey);
        proof {
            lemma_insert_stable(inp, kin, out_v, perm, xv, encode_utf8(xkey@), lo as int);
            perm = perm.insert(lo as int, i as int);
            assert(inp.push(xv) =~= fv.take(i + 1));
            assert(kin.push(encode_utf8(xkey@)) =~= ks.take(i + 1));
            lemma_forest_view_index(out@);
            assert(forest_view(out@) =~= out_v.insert(lo as int, xv)) by {
                assert forall|k: int| 0 <= k < out@.len() implies #[trigger] forest_view(out@)[k]
                    == out_v.insert(lo as int, xv)[k] by {
                    if k < lo {
                        assert(out@[k] == old_out[k]);
                    } else if k > lo {
                        assert(out@[k] == old_out[k - 1]);
                    }
                }
            }
            assert forall|k: int| 0 <= k < i + 1 implies encode_utf8(#[trigger] out_keys@[k]@)
                == ks[perm[k]] by {
                if k < lo {
                    assert(out_keys@[k] == old_keys[k]);
                    assert(ks.take(i as int)[perm[k]] == ks[perm[k]]);
                } else if k > lo {
                    assert(out_keys@[k] == old_keys[k - 1]);
                    assert(perm[k] == perm.remove(lo as int)[k - 1]);
                } else {
                    assert(perm[k] == i);
                }
            }
        }
        i += 1;
    }
    proof {
        assert(fv.take(n as int) =~= fv);
        assert(ks.take(n as int) =~= ks);
    }
    out
}

/// Sort the entries of a directory listing: directories first, then by
/// lowercased name, keeping the scan order among entries with equal keys.
pub fn sort_listing(entries: Vec<TreeNode>) -> (r: Vec<TreeNode>)
    ensures
        is_listing_order(forest_view(entries@), forest_view(r@)),
{
    let mut keys: Vec<String> = Vec::new();
    let mut i: usize = 0;
    while i < entries.len()
        invariant
            i <= entries@.len(),
            keys@.len() == i,
            forall|k: int| 0 <= k < i ==> #[trigger] keys@[k]@ == lowercase_of(entries@[k].name@),
        decreases entries@.len() - i,
    {
        keys.push(to_lowercase(entries[i].name.as_str()));
        i += 1;
    }
    let ghost fv = forest_view(entries@);
    proof {
        lemma_forest_view_index(entries@);
        assert(utf8_keys(keys@) =~= name_keys(fv));
    }
    sort_by_keys(entries, keys)
}

/// In a listing order no file comes before a directory.
pub proof fn law_directories_first(input: Seq<NodeView>, output: Seq<NodeView>)
    requires
        is_listing_order(input, output),
    ensures
        forall|k: int, l: int|
            0 <= k < l < output.len() && #[trigger] output[l].is_directory ==> #[trigger] output[k].is_directory,
{
    let keys = name_keys(input);
    let perm = choose|perm: Seq<int>| keyed_stable_perm(input, keys, output, perm);
    assert forall|k: int, l: int|
        0 <= k < l < output.len() && #[trigger] output[l].is_directory implies #[trigger] output[k].is_directory by {
        assert(entry_le(input, keys, perm[k], perm[l]));
        assert(output[k] == input[perm[k]] && output[l] == input[perm[l]]);
    }
}

} // verus!
