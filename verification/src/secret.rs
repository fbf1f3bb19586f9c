//! The secret snapshot and the replacement set built from it: every `data`
//! entry is decoded as UTF-8 text (a failure aborts the whole build), then
//! `stringData` entries overlay `data` entries sharing a key.

use vstd::prelude::*;
use vstd::string::*;
use vstd::utf8::{decode_utf8, valid_utf8};
use crate::order::{lemma_str_lt_connected, lemma_str_lt_trans, str_lt, str_lt_exec};
use crate::strmap::StrMap;

verus! {

broadcast use vstd::seq_lib::group_seq_properties;

/// A secret snapshot: binary-safe `data` entries and plain `stringData`
/// entries, each in strictly ascending key order.
pub struct SecretView {
    pub(crate) data: Vec<(String, Vec<u8>)>,
    pub(crate) string_data: StrMap,
}

impl SecretView {
    /// The `data` entries as ghost sequences, in storage order.
    pub closed spec fn data_entries(self) -> Seq<(Seq<char>, Seq<u8>)> {
        self.data@.map_values(|p: (String, Vec<u8>)| (p.0@, p.1@))
    }

    /// The `stringData` entries as ghost sequences, in storage order.
    pub closed spec fn string_entries(self) -> Seq<(Seq<char>, Seq<char>)> {
        self.string_data.entries()
    }

    pub closed spec fn wf(self) -> bool {
        &&& forall|i: int, j: int|
            0 <= i < j < self.data_entries().len() ==> str_lt(
                (#[trigger] self.data_entries()[i]).0,
                (#[trigger] self.data_entries()[j]).0,
            )
        &&& self.string_data.wf()
    }

    /// Builds a snapshot from pairs already in strictly ascending key order;
    /// rejects any other input.
    pub fn new(data: Vec<(String, Vec<u8>)>, string_data: Vec<(String, String)>) -> (r: Option<
        SecretView,
    >)
        ensures
            match r {
                Some(s) => s.wf() && s.data_entries() == data@.map_values(
                    |p: (String, Vec<u8>)| (p.0@, p.1@),
                ) && s.string_entries() == string_data@.map_values(
                    |p: (String, String)| (p.0@, p.1@),
                ),
                None => true,
            },
    {
        let sd = match StrMap::from_sorted(string_data) {
            Some(m) => m,
            None => {
                return None;
            },
        };
        let n = data.len();
        let mut i: usize = 1;
        if n > 1 {
            while i < n
                invariant
                    n == data@.len(),
                    1 <= i <= n,
                    forall|j: int|
                        0 <= j < i - 1 ==> str_lt((#[trigger] data@[j]).0@, data@[j + 1].0@),
                decreases n - i,
            {
                if !str_lt_exec(data[i - 1].0.as_str(), data[i].0.as_str()) {
                    return None;
                }
                i = i + 1;
            }
        }
        let s = SecretView { data, string_data: sd };
        proof {
            assert forall|a: int, b: int|
                0 <= a < b < s.data_entries().len() implies str_lt(
                (#[trigger] s.data_entries()[a]).0,
                (#[trigger] s.data_entries()[b]).0,
            ) by {
                lemma_adjacent_sorted_bytes(s.data_entries(), a, b);
            }
        }
        Some(s)
    }
}

/// Pairwise order follows from adjacent order.
proof fn lemma_adjacent_sorted_bytes(ents: Seq<(Seq<char>, Seq<u8>)>, a: int, b: int)
    requires
        forall|j: int| 0 <= j < ents.len() - 1 ==> str_lt(
            (#[trigger] ents[j]).0,
            ents[j + 1].0,
        ),
        0 <= a < b < ents.len(),
    ensures
        str_lt(ents[a].0, ents[b].0),
    decreases b - a,
{
    if b == a + 1 {
    } else {
        lemma_adjacent_sorted_bytes(ents, a, b - 1);
        lemma_str_lt_trans(ents[a].0, ents[b - 1].0, ents[b].0);
    }
}

/// Whether every `data` value decodes as UTF-8 text.
pub open spec fn all_data_utf8(dents: Seq<(Seq<char>, Seq<u8>)>) -> bool {
    forall|i: int| 0 <= i < dents.len() ==> valid_utf8((#[trigger] dents[i]).1)
}

/// The `data` entries with every value decoded.
pub open spec fn decoded_data(dents: Seq<(Seq<char>, Seq<u8>)>) -> Seq<(Seq<char>, Seq<char>)> {
    dents.map_values(|p: (Seq<char>, Seq<u8>)| (p.0, decode_utf8(p.1)))
}

/// Merge of two key-sorted entry sequences; on a shared key the second wins.
pub open spec fn spec_merge(
    a: Seq<(Seq<char>, Seq<char>)>,
    b: Seq<(Seq<char>, Seq<char>)>,
) -> Seq<(Seq<char>, Seq<char>)>
    decreases a.len() + b.len(),
{
    if a.len() == 0 {
        b
    } else if b.len() == 0 {
        a
    } else if str_lt(a[0].0, b[0].0) {
        seq![a[0]] + spec_merge(a.skip(1), b)
    } else if str_lt(b[0].0, a[0].0) {
        seq![b[0]] + spec_merge(a, b.skip(1))
    } else {
        seq![b[0]] + spec_merge(a.skip(1), b.skip(1))
    }
}

/// Relies on String::from_utf8: it succeeds exactly on valid UTF-8 input and
/// decodes the bytes to their characters.
#[verifier::external_body]
fn bytes_to_string(b: &Vec<u8>) -> (r: Option<String>)
    ensures
        r is Some <==> valid_utf8(b@),
        r matches Some(s) ==> s@ == decode_utf8(b@),
{
    match String::from_utf8(b.clone()) {
        Ok(s) => Some(s),
        Err(_) => None,
    }
}

/// Builds the replacement set: decoded `data` overlaid by `stringData`.
/// `None` exactly when some `data` value is not valid UTF-8.
#[verifier::rlimit(100)]
pub fn build_replacements(secret: &SecretView) -> (r: Option<StrMap>)
    requires
        secret.wf(),
    ensures
        r is Some <==> all_data_utf8(secret.data_entries()),
        r matches Some(m) ==> m.wf() && m.entries() == spec_merge(
            decoded_data(secret.data_entries()),
            secret.string_entries(),
        ),
{
    let ghost dents = secret.data_entries();
    let ghost dd = decoded_data(dents);
    let ghost sents = secret.string_entries();

    // Decode every data value first; a single failure aborts the build.
    let dn = secret.data.len();
    let mut dv: Vec<(String, String)> = Vec::new();
    let mut i: usize = 0;
    while i < dn
        invariant
            dn == dents.len(),
            dd == decoded_data(dents),
            dents == secret.data_entries(),
            dd.len() == dents.len(),
            i <= dn,
            dv@.len() == i,
            forall|q: int| 0 <= q < i ==> valid_utf8((#[trigger] dents[q]).1),
            forall|q: int| 0 <= q < i ==> ((#[trigger] dv@[q]).0@, dv@[q].1@) == dd[q],
        decreases dn - i,
    {
        let k = secret.data[i].0.clone();
        let decoded = match bytes_to_string(&secret.data[i].1) {
            Some(s) => s,
            None => {
                proof {
                    assert(dents[i as int].1 == secret.data@[i as int].1@);
                    assert(!valid_utf8(dents[i as int].1));
                }
                return None;
            },
        };
        dv.push((k, decoded));
        i = i + 1;
    }

    // Merge the decoded data with the string data; string data wins ties.
    let sn = secret.string_data.len();
    let mut out: Vec<(String, String)> = Vec::new();
    let mut a: usize = 0;
    let mut b: usize = 0;
    proof {
        assert(dd.skip(0) =~= dd);
        assert(sents.skip(0) =~= sents);
    }
    while a < dn || b < sn
        invariant
            dn == dd.len(),
            dn == dents.len(),
            sn == sents.len(),
            dents == secret.data_entries(),
            dd == decoded_data(dents),
            sents == secret.string_entries(),
            secret.wf(),
            a <= dn,
            b <= sn,
            dv@.len() == dn,
            forall|q: int| 0 <= q < dn ==> ((#[trigger] dv@[q]).0@, dv@[q].1@) == dd[q],
            forall|q: int| 0 <= q < dn ==> (#[trigger] dd[q]).0 == dents[q].0,
            spec_merge(dd, sents) == out@.map_values(|p: (String, String)| (p.0@, p.1@))
                + spec_merge(dd.skip(a as int), sents.skip(b as int)),
            forall|x: int, y: int|
                0 <= x < y < out@.len() ==> str_lt(
                    (#[trigger] out@[x]).0@,
                    (#[trigger] out@[y]).0@,
                ),
            out@.len() > 0 && a < dn ==> str_lt(out@[out@.len() - 1].0@, dd[a as int].0),
            out@.len() > 0 && b < sn ==> str_lt(out@[out@.len() - 1].0@, sents[b as int].0),
        decreases (dn - a) + (sn - b),
    {
        let ghost outv = out@.map_values(|p: (String, String)| (p.0@, p.1@));
        let take_a: bool = if a >= dn {
            false
        } else if b >= sn {
            true
        } else {
            str_lt_exec(dv[a].0.as_str(), secret.string_data.key_at(b).as_str())
        };
        if take_a {
            proof {
                assert(dd.skip(a as int)[0] == dd[a as int]);
                assert(dd.skip(a as int).skip(1) =~= dd.skip(a + 1));
                if b < sn {
                    assert(str_lt(dd[a as int].0, sents[b as int].0));
                    assert(sents.skip(b as int)[0] == sents[b as int]);
                    assert(spec_merge(dd.skip(a as int), sents.skip(b as int)) == seq![
                        dd[a as int],
                    ] + spec_merge(dd.skip(a + 1), sents.skip(b as int)));
                } else {
                    assert(sents.skip(b as int).len() == 0);
                    assert(spec_merge(dd.skip(a as int), sents.skip(b as int)) == seq![
                        dd[a as int],
                    ] + spec_merge(dd.skip(a + 1), sents.skip(b as int)));
                }
            }
            let k = dv[a].0.clone();
            let v = dv[a].1.clone();
            out.push((k, v));
            proof {
                let m = out@.len() - 1;
                assert(out@[m].0@ == dd[a as int].0);
                assert(out@.map_values(|p: (String, String)| (p.0@, p.1@)) =~= outv + seq![
                    dd[a as int],
                ]);
                assert(outv + spec_merge(dd.skip(a as int), sents.skip(b as int)) =~= (outv
                    + seq![dd[a as int]]) + spec_merge(dd.skip(a + 1), sents.skip(b as int)));
                assert forall|x: int, y: int|
                    0 <= x < y < out@.len() implies str_lt(
                    (#[trigger] out@[x]).0@,
                    (#[trigger] out@[y]).0@,
                ) by {
                    if y == m && x < m - 1 {
                        lemma_str_lt_trans(out@[x].0@, out@[m - 1].0@, out@[m].0@);
                    }
                }
                if a + 1 < dn {
                    assert(str_lt(dents[a as int].0, dents[a + 1].0));
                }
            }
            a = a + 1;
        } else {
            let k = secret.string_data.key_at(b).clone();
            let v = secret.string_data.val_at(b).clone();
            let drop_a = a < dn && !str_lt_exec(k.as_str(), dv[a].0.as_str());
            proof {
                assert(sents.skip(b as int)[0] == sents[b as int]);
                assert(sents.skip(b as int).skip(1) =~= sents.skip(b + 1));
                if a < dn {
                    assert(dd.skip(a as int)[0] == dd[a as int]);
                    assert(!str_lt(dd[a as int].0, sents[b as int].0));
                    if drop_a {
                        if dd[a as int].0 != sents[b as int].0 {
                            lemma_str_lt_connected(dd[a as int].0, sents[b as int].0);
                        }
                        assert(dd[a as int].0 == sents[b as int].0);
                        assert(dd.skip(a as int).skip(1) =~= dd.skip(a + 1));
                        assert(spec_merge(dd.skip(a as int), sents.skip(b as int)) == seq![
                            sents[b as int],
                        ] + spec_merge(dd.skip(a + 1), sents.skip(b + 1)));
                    } else {
                        assert(str_lt(sents[b as int].0, dd[a as int].0));
                        assert(spec_merge(dd.skip(a as int), sents.skip(b as int)) == seq![
                            sents[b as int],
                        ] + spec_merge(dd.skip(a as int), sents.skip(b + 1)));
                    }
                } else {
                    assert(dd.skip(a as int).len() == 0);
                    assert(spec_merge(dd.skip(a as int), sents.skip(b as int)) == sents.skip(
                        b as int,
                    ));
                    assert(spec_merge(dd.skip(a as int), sents.skip(b + 1)) == sents.skip(b + 1));
                    assert(sents.skip(b as int) =~= seq![sents[b as int]] + sents.skip(b + 1));
                }
            }
            out.push((k, v));
            proof {
                let m = out@.len() - 1;
                assert(out@[m].0@ == sents[b as int].0);
                assert(out@.map_values(|p: (String, String)| (p.0@, p.1@)) =~= outv + seq![
                    sents[b as int],
                ]);
                if a < dn {
                    if drop_a {
                        assert(outv + spec_merge(dd.skip(a as int), sents.skip(b as int)) =~= (
                        outv + seq![sents[b as int]]) + spec_merge(
                            dd.skip(a + 1),
                            sents.skip(b + 1),
                        ));
                    } else {
                        assert(outv + spec_merge(dd.skip(a as int), sents.skip(b as int)) =~= (
                        outv + seq![sents[b as int]]) + spec_merge(
                            dd.skip(a as int),
                            sents.skip(b + 1),
                        ));
                    }
                } else {
                    assert(outv + spec_merge(dd.skip(a as int), sents.skip(b as int)) =~= (outv
                        + seq![sents[b as int]]) + spec_merge(
                        dd.skip(a as int),
                        sents.skip(b + 1),
                    ));
                }
                assert forall|x: int, y: int|
                    0 <= x < y < out@.len() implies str_lt(
                    (#[trigger] out@[x]).0@,
                    (#[trigger] out@[y]).0@,
                ) by {
                    if y == m && x < m - 1 {
                        lemma_str_lt_trans(out@[x].0@, out@[m - 1].0@, out@[m].0@);
                    }
                }
                if b + 1 < sn {
                    assert(str_lt(sents[b as int].0, sents[b + 1].0));
                }
                if drop_a && a + 1 < dn {
                    assert(str_lt(dents[a as int].0, dents[a + 1].0));
                    assert(str_lt(sents[b as int].0, dd[a + 1].0));
                }
            }
            if drop_a {
                a = a + 1;
            }
            b = b + 1;
        }
    }
    proof {
        assert(dd.skip(a as int).len() == 0);
        assert(sents.skip(b as int).len() == 0);
        assert(spec_merge(dd.skip(a as int), sents.skip(b as int)).len() == 0);
    }
    let ghost outv_final = out@.map_values(|p: (String, String)| (p.0@, p.1@));
    let m = StrMap::from_vec(out);
    proof {
        assert(m.entries() =~= outv_final);
        assert(spec_merge(dd, sents) =~= m.entries() + spec_merge(
            dd.skip(a as int),
            sents.skip(b as int),
        ));
        assert(m.entries() =~= m.entries() + spec_merge(dd.skip(a as int), sents.skip(b as int)));
        assert(m.entries() == spec_merge(dd, sents));
    }
    Some(m)
}

} // verus!
