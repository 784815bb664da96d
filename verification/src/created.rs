//! What `Metainfo::create_bencode` writes reads back as the metainfo it
//! describes.

use vstd::prelude::*;
use vstd::string::*;
use vstd::utf8::*;

use crate::bcodec::bdecoder::{lex_lt, spec_decode, DecodeFault};
use crate::bcodec::bencoder::{dec_bytes, encode};
use crate::bcodec::bvalue::{dict_get, SValue};
use crate::bcodec::finder_tree::{first_in_dict, lemma_find_first_dict};
use crate::bcodec::roundtrip::{keys_sorted, lemma_decode_encode, wf_value};
use crate::constants::PIECE_LENGTH;
use crate::digest::sha1_of;
use crate::metainfo::{
    created_digests, created_info, created_model, digests_sized, piece_digests, piece_of,
    pieces_count, spec_find_announce, spec_find_name, spec_find_piece_length, spec_find_pieces,
    spec_from_bencode, spec_hash, spec_meta_parse, MetaErr, MetaModel,
};
use crate::torrent::{chunks20, spec_files, spec_length};

verus! {

/// The bytes of the keys of a metainfo file.
proof fn lemma_key_bytes()
    ensures
        "length".spec_bytes() == seq![108u8, 101, 110, 103, 116, 104],
        "name".spec_bytes() == seq![110u8, 97, 109, 101],
        "piece length".spec_bytes() == seq![112u8, 105, 101, 99, 101, 32, 108, 101, 110, 103, 116, 104],
        "pieces".spec_bytes() == seq![112u8, 105, 101, 99, 101, 115],
        "files".spec_bytes() == seq![102u8, 105, 108, 101, 115],
        "announce".spec_bytes() == seq![97u8, 110, 110, 111, 117, 110, 99, 101],
        "info".spec_bytes() == seq![105u8, 110, 102, 111],
        "4:info".spec_bytes() == seq![52u8, 58, 105, 110, 102, 111],
{
    broadcast use is_ascii_spec_bytes;
    reveal_strlit("length");
    reveal_strlit("name");
    reveal_strlit("piece length");
    reveal_strlit("pieces");
    reveal_strlit("files");
    reveal_strlit("announce");
    reveal_strlit("info");
    reveal_strlit("4:info");
    assert(is_ascii("length"));
    assert(is_ascii("name"));
    assert(is_ascii("piece length"));
    assert(is_ascii("pieces"));
    assert(is_ascii("files"));
    assert(is_ascii("announce"));
    assert(is_ascii("info"));
    assert(is_ascii("4:info"));
    assert("length".spec_bytes() =~= seq![108u8, 101, 110, 103, 116, 104]);
    assert("name".spec_bytes() =~= seq![110u8, 97, 109, 101]);
    assert("piece length".spec_bytes() =~= seq![112u8, 105, 101, 99, 101, 32, 108, 101, 110, 103, 116, 104]);
    assert("pieces".spec_bytes() =~= seq![112u8, 105, 101, 99, 101, 115]);
    assert("files".spec_bytes() =~= seq![102u8, 105, 108, 101, 115]);
    assert("announce".spec_bytes() =~= seq![97u8, 110, 110, 111, 117, 110, 99, 101]);
    assert("info".spec_bytes() =~= seq![105u8, 110, 102, 111]);
    assert("4:info".spec_bytes() =~= seq![52u8, 58, 105, 110, 102, 111]);
}

/// The digests of the first `n` pieces, each 20 bytes long, lie one after
/// the other.
proof fn lemma_piece_digests_split(data: Seq<u8>, pl: int, n: nat)
    requires
        forall|j: int| 0 <= j < n ==> #[trigger] sha1_of(piece_of(data, pl, j)).len() == 20,
    ensures
        piece_digests(data, pl, n).len() == 20 * n,
        forall|j: int|
            0 <= j < n ==> #[trigger] piece_digests(data, pl, n).subrange(20 * j, 20 * j + 20) == sha1_of(
                piece_of(data, pl, j),
            ),
    decreases n,
{
    if n > 0 {
        let m = (n - 1) as nat;
        lemma_piece_digests_split(data, pl, m);
        let pre = piece_digests(data, pl, m);
        let last = sha1_of(piece_of(data, pl, m as int));
        assert(piece_of(data, pl, m as int) == data.subrange(
            (n - 1) * pl,
            if n * pl <= data.len() {
                n * pl
            } else {
                data.len() as int
            },
        ));
        assert(piece_digests(data, pl, n) == pre + last);
        assert forall|j: int| 0 <= j < n implies #[trigger] piece_digests(data, pl, n).subrange(
            20 * j,
            20 * j + 20,
        ) == sha1_of(piece_of(data, pl, j)) by {
            if j < m {
                assert(piece_digests(data, pl, n).subrange(20 * j, 20 * j + 20) =~= pre.subrange(
                    20 * j,
                    20 * j + 20,
                ));
            } else {
                assert(piece_digests(data, pl, n).subrange(20 * j, 20 * j + 20) =~= last);
            }
        }
    }
}

/// The bytes that `create_bencode` writes for `data`, `name` and `tracker`.
pub open spec fn created_bytes(data: Seq<u8>, name: Seq<char>, tracker: Seq<char>) -> Seq<u8> {
    encode(created_model(data, encode_utf8(name), encode_utf8(tracker)))
}

/// The metainfo that the bytes `create_bencode` writes describe: the
/// tracker, the one file with its name and length, the piece length, the
/// digest of each piece, and the digest of the `info` dictionary.
pub open spec fn created_meta(data: Seq<u8>, name: Seq<char>, tracker: Seq<char>) -> MetaModel {
    MetaModel {
        announce: tracker,
        name,
        piece_length: PIECE_LENGTH as int,
        pieces: Seq::new(
            pieces_count(data.len() as int, PIECE_LENGTH as int) as nat,
            |j: int| sha1_of(piece_of(data, PIECE_LENGTH as int, j)),
        ),
        files: seq![(data.len() as int, name)],
        info_hash: sha1_of(encode(created_info(data, encode_utf8(name)))),
    }
}

/// The metainfo file that `create_bencode` writes reads back as the
/// metainfo it describes: `from_bencode` finds the tracker, the file's name
/// and length, the piece length, the digests of the pieces and the digest
/// of the `info` dictionary.
#[verifier::spinoff_prover]
#[verifier::rlimit(80)]
pub proof fn lemma_created_reads_back(data: Seq<u8>, name: Seq<char>, tracker: Seq<char>)
    requires
        data.len() <= i64::MAX,
        encode_utf8(name).len() <= usize::MAX,
        encode_utf8(tracker).len() <= usize::MAX,
        digests_sized(data),
        created_digests(data).len() <= usize::MAX,
    ensures
        spec_from_bencode(created_bytes(data, name, tracker)) == Ok::<MetaModel, MetaErr>(
            created_meta(data, name, tracker),
        ),
{
    broadcast use encode_utf8_valid_utf8, encode_utf8_decode_utf8;

    lemma_key_bytes();
    let nb = encode_utf8(name);
    let tb = encode_utf8(tracker);
    let dg = created_digests(data);
    let count = pieces_count(data.len() as int, PIECE_LENGTH as int);
    assert(count >= 0) by (nonlinear_arith)
        requires
            count == pieces_count(data.len() as int, PIECE_LENGTH as int),
    ;
    lemma_piece_digests_split(data, PIECE_LENGTH as int, count as nat);
    let len = (data.len() as i64) as int;
    assert(len == data.len());
    let e0 = ("length".spec_bytes(), SValue::Int(len));
    let e1 = ("name".spec_bytes(), SValue::Str(nb));
    let e2 = ("piece length".spec_bytes(), SValue::Int(PIECE_LENGTH as int));
    let e3 = ("pieces".spec_bytes(), SValue::Str(dg));
    let info_d = seq![e0, e1, e2, e3];
    let info = created_info(data, nb);
    assert(info == SValue::Dict(info_d));
    let top_d = seq![("announce".spec_bytes(), SValue::Str(tb)), ("info".spec_bytes(), info)];
    let top = created_model(data, nb, tb);
    assert(top == SValue::Dict(top_d));
    // The keys are in byte order.
    assert(keys_sorted(info_d)) by {
        reveal_with_fuel(lex_lt, 8);
        assert(lex_lt(e0.0, e1.0));
        assert(lex_lt(e0.0, e2.0));
        assert(lex_lt(e0.0, e3.0));
        assert(lex_lt(e1.0, e2.0));
        assert(lex_lt(e1.0, e3.0));
        assert(lex_lt(e2.0, e3.0));
    }
    assert(keys_sorted(top_d)) by {
        reveal_with_fuel(lex_lt, 2);
        assert(lex_lt(top_d[0].0, top_d[1].0));
    }
    assert(forall|q: int| 0 <= q < info_d.len() ==> (#[trigger] info_d[q]).0.len() <= usize::MAX
        && wf_value(info_d[q].1));
    assert(wf_value(info));
    assert(forall|q: int| 0 <= q < top_d.len() ==> (#[trigger] top_d[q]).0.len() <= usize::MAX
        && wf_value(top_d[q].1)) by {
        assert(top_d[0].1 == SValue::Str(tb));
        assert(top_d[1].1 == info);
    }
    assert(wf_value(top));
    // The bytes decode to the dictionary.
    let w = created_bytes(data, name, tracker);
    lemma_decode_encode(top);
    assert(spec_decode(w) == Ok::<Seq<SValue>, DecodeFault>(seq![top]));
    // Its entries.
    reveal_with_fuel(dict_get, 6);
    assert(dict_get(top_d, "info".spec_bytes()) == Some(info));
    assert(dict_get(top_d, "announce".spec_bytes()) == Some(SValue::Str(tb)));
    assert(dict_get(info_d, "length".spec_bytes()) == Some(SValue::Int(len)));
    assert(dict_get(info_d, "name".spec_bytes()) == Some(SValue::Str(nb)));
    assert(dict_get(info_d, "piece length".spec_bytes()) == Some(SValue::Int(PIECE_LENGTH as int)));
    assert(dict_get(info_d, "pieces".spec_bytes()) == Some(SValue::Str(dg)));
    assert(dict_get(info_d, "files".spec_bytes()) is None);
    assert(spec_length(top_d) == Some(len));
    assert(spec_files(top_d) is None);
    assert(spec_find_name(top_d) == Ok::<Seq<char>, MetaErr>(name));
    assert(spec_find_announce(top_d) == Ok::<Seq<char>, MetaErr>(tracker));
    assert(spec_find_piece_length(top_d) == Ok::<int, MetaErr>(PIECE_LENGTH as int));
    assert(dg.len() % 20 == 0 && dg.len() / 20 == count) by (nonlinear_arith)
        requires
            dg.len() == 20 * count,
    ;
    assert(chunks20(dg) =~= created_meta(data, name, tracker).pieces);
    assert(spec_find_pieces(top_d) == Ok::<Seq<Seq<u8>>, MetaErr>(chunks20(dg)));
    // The raw `info` value is found where the encoder wrote it.
    let key = "4:info".spec_bytes();
    lemma_find_first_dict(top_d, key);
    assert(encode(SValue::Str("announce".spec_bytes())) != key) by {
        assert(dec_bytes(8) == seq![56u8]);
    }
    assert(encode(SValue::Str("info".spec_bytes())) =~= key) by {
        assert(dec_bytes(4) == seq![52u8]);
    }
    assert(first_in_dict(top_d, key, 0) == Some(encode(info))) by {
        reveal_with_fuel(first_in_dict, 3);
    }
    assert(spec_hash(w) == Ok::<Seq<u8>, MetaErr>(sha1_of(encode(info))));
    assert(spec_meta_parse(w, top_d) == Ok::<MetaModel, MetaErr>(created_meta(data, name, tracker)));
    assert(seq![top][0] == top);
}

} // verus!
