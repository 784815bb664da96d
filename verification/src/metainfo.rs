//! The metainfo of a torrent (the `.torrent` file, see BEP3): tracker,
//! name, pieces, files and the info hash.

use vstd::prelude::*;
use vstd::string::*;
use vstd::utf8::*;

use crate::bcodec::bdecoder::{decode_values, fault_error, fault_error_is, spec_decode, DecodeFault};
use crate::bcodec::bencoder::{encode, BEncoder};
use crate::bcodec::bvalue::{dict_get, dict_lookup, sdict, svs, BValue, SValue};
use crate::bcodec::deep_finder::{opt_match, spec_find_first, DeepFinder};
use crate::bcodec::raw_finder::RawFinder;
use crate::constants::{HASH_SIZE, PIECE_LENGTH};
use crate::digest::{sha1_digest, sha1_of};
use crate::error::Error;
use crate::text::{bytes_of, text, utf8_string};
use crate::torrent::{chunks20, files_of, info_of, opt_int, spec_files, spec_length, DictModel};

verus! {

/// Metainfo file (also known as .torrent) describes all data required to
/// find and download the files of a torrent from the peer-to-peer network.
#[derive(PartialEq, Clone, Debug)]
pub struct Metainfo {
    pub announce: String,
    pub name: String,
    pub piece_length: u64,
    pub pieces: Vec<[u8; HASH_SIZE]>,
    pub files: Vec<File>,
    pub info_hash: [u8; HASH_SIZE],
}

/// File description in a metainfo file.
#[derive(PartialEq, Clone, Debug)]
pub struct File {
    /// Total file length
    pub length: u64,
    /// File name (or path if file is placed in folders)
    pub path: String,
}

/// A position in the torrent's data: the index of the piece that holds it
/// (`file_index`) and the offset inside that piece.
#[derive(PartialEq, Clone, Copy, Debug)]
pub struct PiecePos {
    pub file_index: usize,
    pub byte_index: usize,
}

/// The errors of metainfo extraction, with the field they concern.
pub enum MetaErr {
    IncorrectOrMissing(Seq<char>),
    InvalidUtf8(Seq<char>),
    InvalidU64(Seq<char>),
    NotDivisible(Seq<char>),
    LenAndFilesConflict,
    LenOrFilesMissing,
    InfoMissing,
    DataMissing,
    BEncodeMissing,
    Decode(DecodeFault),
}

/// Whether an error is the one a metainfo error stands for.
pub open spec fn meta_err_is(e: Error, m: MetaErr) -> bool {
    match m {
        MetaErr::IncorrectOrMissing(f) => e matches Error::MetaIncorrectOrMissing(s) && s@ == f,
        MetaErr::InvalidUtf8(f) => e matches Error::MetaInvalidUtf8(s) && s@ == f,
        MetaErr::InvalidU64(f) => e matches Error::MetaInvalidU64(s) && s@ == f,
        MetaErr::NotDivisible(f) => e matches Error::MetaNotDivisible(s) && s@ == f,
        MetaErr::LenAndFilesConflict => e == Error::MetaLenAndFilesConflict,
        MetaErr::LenOrFilesMissing => e == Error::MetaLenOrFilesMissing,
        MetaErr::InfoMissing => e == Error::InfoMissing,
        MetaErr::DataMissing => e == Error::MetaDataMissing,
        MetaErr::BEncodeMissing => e == Error::MetaBEncodeMissing,
        MetaErr::Decode(f) => fault_error_is(e, f),
    }
}

/// Whether a result is the one a modelled result stands for, the values
/// compared by `same`.
pub open spec fn res_is<T, U>(r: Result<T, Error>, m: Result<U, MetaErr>, same: spec_fn(T, U) -> bool) -> bool {
    match (r, m) {
        (Ok(a), Ok(b)) => same(a, b),
        (Err(e), Err(me)) => meta_err_is(e, me),
        _ => false,
    }
}

/// Model of a metainfo.
pub struct MetaModel {
    pub announce: Seq<char>,
    pub name: Seq<char>,
    pub piece_length: int,
    pub pieces: Seq<Seq<u8>>,
    pub files: Seq<(int, Seq<char>)>,
    pub info_hash: Seq<u8>,
}

impl File {
    /// The file as a (length, path) pair.
    pub open spec fn model(&self) -> (int, Seq<char>) {
        (self.length as int, self.path@)
    }
}

/// Models of a sequence of files.
pub open spec fn files_model(fs: Seq<File>) -> Seq<(int, Seq<char>)> {
    Seq::new(fs.len(), |i: int| fs[i].model())
}

/// Models of a sequence of hashes.
pub open spec fn hashes_model(hs: Seq<[u8; HASH_SIZE]>) -> Seq<Seq<u8>> {
    Seq::new(hs.len(), |i: int| hs[i]@)
}

impl Metainfo {
    /// Whether the lengths of pieces can be computed: there is a piece, the
    /// total length fits in 64 bits and the piece length is not zero.
    pub open spec fn wf(&self) -> bool {
        &&& self.pieces@.len() > 0
        &&& total_of(self.files@) <= u64::MAX
        &&& (self.piece_length as usize) > 0
    }

    /// The length of piece `index`: the piece length, but for the last
    /// piece, which holds what remains of the data.
    pub open spec fn spec_piece_length(&self, index: int) -> int {
        if index < self.pieces@.len() - 1 {
            self.piece_length as usize as int
        } else {
            let last = ((total_of(self.files@) as u64) as usize) % (self.piece_length as usize);
            if last != 0 {
                last as int
            } else {
                self.piece_length as usize as int
            }
        }
    }

    /// The model of the metainfo.
    pub open spec fn model(&self) -> MetaModel {
        MetaModel {
            announce: self.announce@,
            name: self.name@,
            piece_length: self.piece_length as int,
            pieces: hashes_model(self.pieces@),
            files: files_model(self.files@),
            info_hash: self.info_hash@,
        }
    }
}

/// The text of an optional byte-string entry, or the error for `field`.
pub open spec fn meta_text(v: Option<SValue>, field: Seq<char>) -> Result<Seq<char>, MetaErr> {
    match v {
        Some(SValue::Str(b)) => if valid_utf8(b) {
            Ok(decode_utf8(b))
        } else {
            Err(MetaErr::InvalidUtf8(field))
        },
        _ => Err(MetaErr::IncorrectOrMissing(field)),
    }
}

/// The `announce` entry.
pub open spec fn spec_find_announce(d: DictModel) -> Result<Seq<char>, MetaErr> {
    meta_text(dict_get(d, "announce".spec_bytes()), "announce"@)
}

/// The `name` entry of `info`.
pub open spec fn spec_find_name(d: DictModel) -> Result<Seq<char>, MetaErr> {
    match info_of(d) {
        Some(i) => meta_text(dict_get(i, "name".spec_bytes()), "name"@),
        None => Err(MetaErr::IncorrectOrMissing("info"@)),
    }
}

/// The `piece length` entry of `info`.
pub open spec fn spec_find_piece_length(d: DictModel) -> Result<int, MetaErr> {
    match info_of(d) {
        Some(i) => match dict_get(i, "piece length".spec_bytes()) {
            Some(SValue::Int(n)) => if n >= 0 {
                Ok(n)
            } else {
                Err(MetaErr::InvalidU64("piece length"@))
            },
            _ => Err(MetaErr::IncorrectOrMissing("piece length"@)),
        },
        None => Err(MetaErr::IncorrectOrMissing("info"@)),
    }
}

/// The `pieces` entry of `info`, cut into hashes of 20 bytes.
pub open spec fn spec_find_pieces(d: DictModel) -> Result<Seq<Seq<u8>>, MetaErr> {
    match info_of(d) {
        Some(i) => match dict_get(i, "pieces".spec_bytes()) {
            Some(SValue::Str(b)) => if b.len() % 20 != 0 {
                Err(MetaErr::NotDivisible("pieces"@))
            } else {
                Ok(chunks20(b))
            },
            _ => Err(MetaErr::IncorrectOrMissing("pieces"@)),
        },
        None => Err(MetaErr::IncorrectOrMissing("info"@)),
    }
}

/// The info hash: the digest of the raw value of the first `info` key.
pub open spec fn spec_hash(data: Seq<u8>) -> Result<Seq<u8>, MetaErr> {
    match spec_find_first("4:info".spec_bytes(), data) {
        Some(raw) => Ok(sha1_of(raw)),
        None => Err(MetaErr::InfoMissing),
    }
}

/// The metainfo held by one dictionary of `data`; errors are checked in the
/// order length/files, name, announce, piece length, pieces, info hash.
pub open spec fn spec_meta_parse(data: Seq<u8>, d: DictModel) -> Result<MetaModel, MetaErr> {
    let length = spec_length(d);
    let multi = spec_files(d);
    if length.is_some() && multi.is_some() {
        Err(MetaErr::LenAndFilesConflict)
    } else if length.is_none() && multi.is_none() {
        Err(MetaErr::LenOrFilesMissing)
    } else {
        match spec_find_name(d) {
            Err(e) => Err(e),
            Ok(name) => {
                let files = match length {
                    Some(l) => seq![(l, name)],
                    None => multi.unwrap(),
                };
                match spec_find_announce(d) {
                    Err(e) => Err(e),
                    Ok(announce) => match spec_find_piece_length(d) {
                        Err(e) => Err(e),
                        Ok(piece_length) => match spec_find_pieces(d) {
                            Err(e) => Err(e),
                            Ok(pieces) => match spec_hash(data) {
                                Err(e) => Err(e),
                                Ok(info_hash) => Ok(
                                    MetaModel {
                                        announce,
                                        name,
                                        piece_length,
                                        pieces,
                                        files,
                                        info_hash,
                                    },
                                ),
                            },
                        },
                    },
                }
            },
        }
    }
}

/// The first metainfo held by a dictionary among the values from `i` on;
/// failing that the error of the last dictionary, and `err` where none is.
pub open spec fn scan_meta(data: Seq<u8>, vs: Seq<SValue>, i: int, err: MetaErr) -> Result<MetaModel, MetaErr>
    decreases vs.len() - i,
{
    if i < 0 || i >= vs.len() {
        Err(err)
    } else {
        match vs[i] {
            SValue::Dict(d) => match spec_meta_parse(data, d) {
                Ok(m) => Ok(m),
                Err(e) => scan_meta(data, vs, i + 1, e),
            },
            _ => scan_meta(data, vs, i + 1, err),
        }
    }
}

/// The metainfo read from a bencoded buffer.
pub open spec fn spec_from_bencode(data: Seq<u8>) -> Result<MetaModel, MetaErr> {
    match spec_decode(data) {
        Err(m) => Err(MetaErr::Decode(m)),
        Ok(vs) => if vs.len() == 0 {
            Err(MetaErr::BEncodeMissing)
        } else {
            scan_meta(data, vs, 0, MetaErr::DataMissing)
        },
    }
}

/// Sum of the lengths of files.
pub open spec fn total_of(fs: Seq<File>) -> int
    decreases fs.len(),
{
    if fs.len() == 0 {
        0
    } else {
        total_of(fs.drop_last()) + fs.last().length
    }
}

/// Sum of the lengths of files, each taken as a `usize`.
pub open spec fn total_usize_of(fs: Seq<File>) -> int
    decreases fs.len(),
{
    if fs.len() == 0 {
        0
    } else {
        total_usize_of(fs.drop_last()) + (fs.last().length as usize)
    }
}

/// The position `pos` of the data, for pieces of length `pl`: the index of
/// the piece that holds the byte at `pos`, and the offset in that piece.
pub open spec fn spec_piece_pos(pos: int, pl: int) -> (int, int) {
    (pos / pl, pos % pl)
}

/// The digests of the first `k` pieces of `data`, cut in pieces of `pl`
/// bytes (the last one shorter where the length is no multiple of `pl`).
pub open spec fn piece_digests(data: Seq<u8>, pl: int, k: nat) -> Seq<u8>
    decreases k,
{
    if k == 0 {
        Seq::empty()
    } else {
        let start = (k - 1) * pl;
        let end = if k * pl <= data.len() {
            k * pl
        } else {
            data.len() as int
        };
        piece_digests(data, pl, (k - 1) as nat) + sha1_of(data.subrange(start, end))
    }
}

/// The number of pieces of `len` bytes cut in pieces of `pl`.
pub open spec fn pieces_count(len: int, pl: int) -> int {
    if len % pl == 0 {
        len / pl
    } else {
        len / pl + 1
    }
}

/// Piece `j` of `data` cut in pieces of `pl` bytes, the last one holding
/// what remains.
pub open spec fn piece_of(data: Seq<u8>, pl: int, j: int) -> Seq<u8> {
    data.subrange(
        j * pl,
        if (j + 1) * pl <= data.len() {
            (j + 1) * pl
        } else {
            data.len() as int
        },
    )
}

/// The digest of every piece of `data` is 20 bytes long.
pub open spec fn digests_sized(data: Seq<u8>) -> bool {
    forall|j: int|
        0 <= j < pieces_count(data.len() as int, PIECE_LENGTH as int) ==> #[trigger] sha1_of(
            piece_of(data, PIECE_LENGTH as int, j),
        ).len() == 20
}

/// The digests of the pieces of `data`, one after the other.
pub open spec fn created_digests(data: Seq<u8>) -> Seq<u8> {
    piece_digests(data, PIECE_LENGTH as int, pieces_count(data.len() as int, PIECE_LENGTH as int) as nat)
}

/// The `info` dictionary that `create_bencode` writes for one file named
/// `name` with content `data`.
pub open spec fn created_info(data: Seq<u8>, name: Seq<u8>) -> SValue {
    SValue::Dict(
        seq![
            ("length".spec_bytes(), SValue::Int((data.len() as i64) as int)),
            ("name".spec_bytes(), SValue::Str(name)),
            ("piece length".spec_bytes(), SValue::Int(PIECE_LENGTH as int)),
            ("pieces".spec_bytes(), SValue::Str(created_digests(data))),
        ],
    )
}

/// The model of the metainfo that `create_bencode` writes: the tracker, and
/// the info of one file named `name` with content `data`.
pub open spec fn created_model(data: Seq<u8>, name: Seq<u8>, tracker_addr: Seq<u8>) -> SValue {
    SValue::Dict(
        seq![
            ("announce".spec_bytes(), SValue::Str(tracker_addr)),
            (
                "info".spec_bytes(),
                created_info(data, name),
            ),
        ],
    )
}

/// Reads a byte-string entry as text.
fn meta_text_of(v: Option<&BValue>, field: &str) -> (r: Result<String, Error>)
    ensures
        res_is(
            r,
            meta_text(
                match v {
                    Some(b) => Some(b.sv()),
                    None => None,
                },
                field@,
            ),
            |a: String, b: Seq<char>| a@ == b,
        ),
{
    match v {
        Some(BValue::ByteStr(b)) => match utf8_string(b.as_slice()) {
            Some(s) => Ok(s),
            None => Err(Error::MetaInvalidUtf8(text(field))),
        },
        _ => Err(Error::MetaIncorrectOrMissing(text(field))),
    }
}

/// The `info` dictionary, if the entry is one.
fn info_dict(dict: &Vec<(Vec<u8>, BValue)>) -> (r: Option<&Vec<(Vec<u8>, BValue)>>)
    ensures
        match r {
            Some(i) => info_of(sdict(dict@)) == Some(sdict(i@)),
            None => info_of(sdict(dict@)) is None,
        },
{
    match dict_lookup(dict, "info".as_bytes()) {
        Some(BValue::Dict(i)) => {
            proof {
                crate::bcodec::bvalue::lemma_sv_unfold(BValue::Dict(*i));
            }
            Some(i)
        },
        _ => None,
    }
}

/// Copies a chunk of 20 bytes into an array.
fn hash_at(b: &Vec<u8>, start: usize) -> (r: [u8; HASH_SIZE])
    requires
        start + 20 <= b@.len(),
    ensures
        r@ == b@.subrange(start as int, start + 20),
{
    let n = b.len();
    let mut r: [u8; HASH_SIZE] = [0; HASH_SIZE];
    let mut i: usize = 0;
    while i < 20
        invariant
            n == b@.len(),
            start + 20 <= b@.len(),
            i <= 20,
            r@.len() == 20,
            forall|j: int| 0 <= j < i ==> r@[j] == b@[start + j],
        decreases 20 - i,
    {
        r[i] = b[start + i];
        i = i + 1;
    }
    assert(r@ =~= b@.subrange(start as int, start + 20));
    r
}

impl Metainfo {
    /// Reads a metainfo from bencoded data: the first dictionary that holds
    /// a valid metainfo wins; otherwise the error of the last dictionary.
    pub fn from_bencode(data: &[u8]) -> (r: Result<Metainfo, Error>)
        ensures
            res_is(r, spec_from_bencode(data@), |a: Metainfo, b: MetaModel| a.model() == b),
    {
        let bvalues = match decode_values(data) {
            Ok(v) => v,
            Err(f) => return Err(fault_error(f)),
        };
        if bvalues.len() == 0 {
            return Err(Error::MetaBEncodeMissing);
        }
        let ghost vs = svs(bvalues@);
        let ghost mut err_m = MetaErr::DataMissing;
        let mut err = Error::MetaDataMissing;
        let mut i: usize = 0;
        while i < bvalues.len()
            invariant
                i <= bvalues@.len(),
                vs == svs(bvalues@),
                spec_decode(data@) == Ok::<Seq<SValue>, DecodeFault>(vs),
                vs.len() > 0,
                meta_err_is(err, err_m),
                scan_meta(data@, vs, 0, MetaErr::DataMissing) == scan_meta(data@, vs, i as int, err_m),
            decreases bvalues@.len() - i,
        {
            match &bvalues[i] {
                BValue::Dict(dict) => {
                    proof {
                        crate::bcodec::bvalue::lemma_sv_unfold(bvalues@[i as int]);
                        assert(vs[i as int] == SValue::Dict(sdict(dict@)));
                    }
                    match Self::parse(data, dict) {
                        Ok(m) => return Ok(m),
                        Err(e) => {
                            proof {
                                err_m = spec_meta_parse(data@, sdict(dict@))->Err_0;
                            }
                            err = e;
                        },
                    }
                },
                _ => {},
            }
            i = i + 1;
        }
        Err(err)
    }

    /// The metainfo held by one dictionary of `data`.
    pub fn parse(data: &[u8], dict: &Vec<(Vec<u8>, BValue)>) -> (r: Result<Metainfo, Error>)
        ensures
            res_is(r, spec_meta_parse(data@, sdict(dict@)), |a: Metainfo, b: MetaModel| a.model() == b),
    {
        let length = Self::find_length(dict);
        let multi_files = Self::find_files(dict);
        if length.is_some() && multi_files.is_some() {
            return Err(Error::MetaLenAndFilesConflict);
        } else if length.is_none() && multi_files.is_none() {
            return Err(Error::MetaLenOrFilesMissing);
        }
        let name = match Self::find_name(dict) {
            Ok(n) => n,
            Err(e) => return Err(e),
        };
        let files = match length {
            Some(length) => {
                let f = File { length, path: name.clone() };
                let mut v: Vec<File> = Vec::new();
                v.push(f);
                v
            },
            None => match multi_files {
                Some(multi_files) => multi_files,
                None => Vec::new(),
            },
        };
        let announce = match Self::find_announce(dict) {
            Ok(a) => a,
            Err(e) => return Err(e),
        };
        let piece_length = match Self::find_piece_length(dict) {
            Ok(a) => a,
            Err(e) => return Err(e),
        };
        let pieces = match Self::find_pieces(dict) {
            Ok(a) => a,
            Err(e) => return Err(e),
        };
        let info_hash = match Self::calculate_hash(data) {
            Ok(a) => a,
            Err(e) => return Err(e),
        };
        let m = Metainfo { announce, name, piece_length, pieces, files, info_hash };
        proof {
            assert(files_model(m.files@) == (match spec_length(sdict(dict@)) {
                Some(l) => seq![(l, m.name@)],
                None => spec_files(sdict(dict@)).unwrap(),
            }));
        }
        Ok(m)
    }

    /// Finds the value of the `announce` key.
    pub fn find_announce(dict: &Vec<(Vec<u8>, BValue)>) -> (r: Result<String, Error>)
        ensures
            res_is(r, spec_find_announce(sdict(dict@)), |a: String, b: Seq<char>| a@ == b),
    {
        meta_text_of(dict_lookup(dict, "announce".as_bytes()), "announce")
    }

    /// Finds the value of the `info:name` key.
    pub fn find_name(dict: &Vec<(Vec<u8>, BValue)>) -> (r: Result<String, Error>)
        ensures
            res_is(r, spec_find_name(sdict(dict@)), |a: String, b: Seq<char>| a@ == b),
    {
        match info_dict(dict) {
            Some(info) => meta_text_of(dict_lookup(info, "name".as_bytes()), "name"),
            None => Err(Error::MetaIncorrectOrMissing(text("info"))),
        }
    }

    /// Finds the value of the `info:piece length` key.
    pub fn find_piece_length(dict: &Vec<(Vec<u8>, BValue)>) -> (r: Result<u64, Error>)
        ensures
            res_is(r, spec_find_piece_length(sdict(dict@)), |a: u64, b: int| a == b),
    {
        match info_dict(dict) {
            Some(info) => match dict_lookup(info, "piece length".as_bytes()) {
                Some(BValue::Int(length)) => {
                    if *length >= 0 {
                        Ok(*length as u64)
                    } else {
                        Err(Error::MetaInvalidU64(text("piece length")))
                    }
                },
                _ => Err(Error::MetaIncorrectOrMissing(text("piece length"))),
            },
            None => Err(Error::MetaIncorrectOrMissing(text("info"))),
        }
    }

    /// Finds the value of the `info:pieces` key, cut into hashes.
    pub fn find_pieces(dict: &Vec<(Vec<u8>, BValue)>) -> (r: Result<Vec<[u8; HASH_SIZE]>, Error>)
        ensures
            res_is(
                r,
                spec_find_pieces(sdict(dict@)),
                |a: Vec<[u8; HASH_SIZE]>, b: Seq<Seq<u8>>| hashes_model(a@) == b,
            ),
    {
        match info_dict(dict) {
            Some(info) => match dict_lookup(info, "pieces".as_bytes()) {
                Some(BValue::ByteStr(pieces)) => {
                    if pieces.len() % HASH_SIZE != 0 {
                        return Err(Error::MetaNotDivisible(text("pieces")));
                    }
                    Ok(split_hashes(pieces))
                },
                _ => Err(Error::MetaIncorrectOrMissing(text("pieces"))),
            },
            None => Err(Error::MetaIncorrectOrMissing(text("info"))),
        }
    }

    /// Finds the value of the `info:length` key, where it is non-negative.
    pub fn find_length(dict: &Vec<(Vec<u8>, BValue)>) -> (r: Option<u64>)
        ensures
            opt_int(r) == spec_length(sdict(dict@)),
    {
        match info_dict(dict) {
            Some(info) => match dict_lookup(info, "length".as_bytes()) {
                Some(BValue::Int(length)) => {
                    if *length >= 0 {
                        Some(*length as u64)
                    } else {
                        None
                    }
                },
                _ => None,
            },
            None => None,
        }
    }

    /// Finds the value of the `info:files` key: its valid file entries.
    pub fn find_files(dict: &Vec<(Vec<u8>, BValue)>) -> (r: Option<Vec<File>>)
        ensures
            match r {
                Some(v) => spec_files(sdict(dict@)) == Some(files_model(v@)),
                None => spec_files(sdict(dict@)) is None,
            },
    {
        match info_dict(dict) {
            Some(info) => match dict_lookup(info, "files".as_bytes()) {
                Some(BValue::List(list)) => {
                    proof {
                        crate::bcodec::bvalue::lemma_sv_unfold(BValue::List(*list));
                    }
                    Some(Self::file_list(list))
                },
                _ => None,
            },
            None => None,
        }
    }

    /// The valid file entries of a list, in order.
    fn file_list(list: &Vec<BValue>) -> (r: Vec<File>)
        ensures
            files_model(r@) == files_of(svs(list@)),
    {
        let mut res: Vec<File> = Vec::new();
        let mut i: usize = 0;
        while i < list.len()
            invariant
                i <= list@.len(),
                files_model(res@) == files_of(svs(list@).subrange(0, i as int)),
            decreases list@.len() - i,
        {
            let ghost pre = svs(list@).subrange(0, i + 1);
            assert(pre.drop_last() =~= svs(list@).subrange(0, i as int));
            assert(pre.last() == list@[i as int].sv());
            match &list[i] {
                BValue::Dict(dict) => {
                    proof {
                        crate::bcodec::bvalue::lemma_sv_unfold(list@[i as int]);
                    }
                    match (dict_lookup(dict, "length".as_bytes()), dict_lookup(dict, "path".as_bytes())) {
                        (Some(BValue::Int(length)), Some(BValue::ByteStr(path))) => {
                            if *length >= 0 {
                                match utf8_string(path.as_slice()) {
                                    Some(p) => {
                                        let ghost old_res = res@;
                                        res.push(File { length: *length as u64, path: p });
                                        assert(files_model(res@) =~= files_model(old_res).push(
                                            (*length as int, p@),
                                        ));
                                    },
                                    None => {},
                                }
                            }
                        },
                        _ => {},
                    }
                },
                _ => {},
            }
            i = i + 1;
        }
        assert(svs(list@).subrange(0, list@.len() as int) =~= svs(list@));
        res
    }

    /// The SHA-1 digest of the raw `info` value.
    fn calculate_hash(data: &[u8]) -> (r: Result<[u8; HASH_SIZE], Error>)
        ensures
            res_is(r, spec_hash(data@), |a: [u8; HASH_SIZE], b: Seq<u8>| a@ == b),
    {
        match DeepFinder::find_first("4:info", data) {
            Some(info) => Ok(sha1_digest(info.as_slice())),
            None => Err(Error::InfoMissing),
        }
    }

    /// The URL of the tracker.
    pub fn tracker_url(&self) -> (r: &String)
        ensures
            r@ == self.announce@,
    {
        &self.announce
    }

    /// The SHA-1 hash of a piece.
    pub fn piece(&self, index: usize) -> (r: &[u8; HASH_SIZE])
        requires
            index < self.pieces@.len(),
        ensures
            r@ == self.pieces@[index as int]@,
    {
        &self.pieces[index]
    }

    /// The number of pieces.
    pub fn pieces_num(&self) -> (r: usize)
        ensures
            r == self.pieces@.len(),
    {
        self.pieces.len()
    }

    /// The length of a piece: the piece length, but for the last piece,
    /// which holds what remains of the data.
    pub fn piece_length(&self, index: usize) -> (r: usize)
        requires
            self.pieces@.len() > 0,
            total_of(self.files@) <= u64::MAX,
            index >= self.pieces@.len() - 1 ==> (self.piece_length as usize) > 0,
        ensures
            r == self.spec_piece_length(index as int),
    {
        if index < self.pieces.len() - 1 {
            return self.piece_length as usize;
        }
        let last = self.total_length() as usize % self.piece_length as usize;
        if last != 0 {
            return last;
        }
        self.piece_length as usize
    }

    /// The length of all the files of the torrent.
    pub fn total_length(&self) -> (r: u64)
        requires
            total_of(self.files@) <= u64::MAX,
        ensures
            r == total_of(self.files@),
    {
        let mut sum: u64 = 0;
        let mut i: usize = 0;
        while i < self.files.len()
            invariant
                i <= self.files@.len(),
                total_of(self.files@) <= u64::MAX,
                sum == total_of(self.files@.subrange(0, i as int)),
            decreases self.files@.len() - i,
        {
            proof {
                assert(self.files@.subrange(0, i + 1).drop_last() =~= self.files@.subrange(0, i as int));
                lemma_total_prefix(self.files@, i + 1);
            }
            sum = sum + self.files[i].length;
            i = i + 1;
        }
        assert(self.files@.subrange(0, self.files@.len() as int) =~= self.files@);
        sum
    }

    /// The SHA-1 hash of the info section.
    pub fn info_hash(&self) -> (r: &[u8; HASH_SIZE])
        ensures
            r@ == self.info_hash@,
    {
        &self.info_hash
    }

    /// For each file: the directory it goes in (the torrent's name where
    /// there are several files, else empty), its path, and the positions in
    /// the data where it starts and ends.
    pub fn file_piece_ranges(&self) -> (r: Vec<(String, String, PiecePos, PiecePos)>)
        requires
            (self.piece_length as usize) > 0,
            total_usize_of(self.files@) <= usize::MAX,
        ensures
            r@.len() == self.files@.len(),
            forall|i: int|
                0 <= i < r@.len() ==> {
                    let start = total_usize_of(self.files@.subrange(0, i));
                    let end = total_usize_of(self.files@.subrange(0, i + 1));
                    let pl = self.piece_length as usize as int;
                    &&& (#[trigger] r@[i]).0@ == (if self.files@.len() > 1 {
                        self.name@
                    } else {
                        Seq::<char>::empty()
                    })
                    &&& r@[i].1@ == self.files@[i].path@
                    &&& (r@[i].2.file_index as int, r@[i].2.byte_index as int) == spec_piece_pos(start, pl)
                    &&& (r@[i].3.file_index as int, r@[i].3.byte_index as int) == spec_piece_pos(end, pl)
                },
    {
        let mut ranges: Vec<(String, String, PiecePos, PiecePos)> = Vec::new();
        let mut pos: usize = 0;
        let mut i: usize = 0;
        while i < self.files.len()
            invariant
                i <= self.files@.len(),
                (self.piece_length as usize) > 0,
                total_usize_of(self.files@) <= usize::MAX,
                pos == total_usize_of(self.files@.subrange(0, i as int)),
                ranges@.len() == i,
                forall|j: int|
                    0 <= j < i ==> {
                        let start = total_usize_of(self.files@.subrange(0, j));
                        let end = total_usize_of(self.files@.subrange(0, j + 1));
                        let pl = self.piece_length as usize as int;
                        &&& (#[trigger] ranges@[j]).0@ == (if self.files@.len() > 1 {
                            self.name@
                        } else {
                            Seq::<char>::empty()
                        })
                        &&& ranges@[j].1@ == self.files@[j].path@
                        &&& (ranges@[j].2.file_index as int, ranges@[j].2.byte_index as int)
                            == spec_piece_pos(start, pl)
                        &&& (ranges@[j].3.file_index as int, ranges@[j].3.byte_index as int)
                            == spec_piece_pos(end, pl)
                    },
            decreases self.files@.len() - i,
        {
            proof {
                assert(self.files@.subrange(0, i + 1).drop_last() =~= self.files@.subrange(0, i as int));
                lemma_total_usize_prefix(self.files@, i + 1);
            }
            let length = self.files[i].length as usize;
            let dir = if self.files.len() > 1 {
                self.name.clone()
            } else {
                text("")
            };
            proof {
                reveal_strlit("");
            }
            let start = self.piece_pos(pos);
            let end = self.piece_pos(pos + length);
            ranges.push((dir, self.files[i].path.clone(), start, end));
            pos = pos + length;
            i = i + 1;
        }
        ranges
    }

    /// The position `pos` of the data, as the index of the piece that holds
    /// it and the offset in that piece.
    pub fn piece_pos(&self, pos: usize) -> (r: PiecePos)
        requires
            (self.piece_length as usize) > 0,
        ensures
            (r.file_index as int, r.byte_index as int) == spec_piece_pos(
                pos as int,
                self.piece_length as usize as int,
            ),
    {
        let pl = self.piece_length as usize;
        let file_index = pos / pl;
        let byte_index = pos % pl;
        PiecePos { file_index, byte_index }
    }

    /// The metainfo file, bencoded, that describes a single file named
    /// `name` with content `data` on the tracker `tracker_addr`: `pieces`
    /// holds the digest of each piece of the data.
    pub fn create_bencode(data: &[u8], name: &str, tracker_addr: &str) -> (r: Vec<u8>)
        ensures
            r@ == encode(created_model(data@, name.spec_bytes(), tracker_addr.spec_bytes())),
            digests_sized(data@),
    {
        let mut pieces: Vec<u8> = Vec::new();
        let n = data.len();
        let mut end: usize = 0;
        let ghost mut k: nat = 0;
        while end < n
            invariant
                n == data@.len(),
                end <= n,
                end < n ==> end == k * PIECE_LENGTH,
                end == n ==> n <= k * PIECE_LENGTH < n + PIECE_LENGTH,
                pieces@ == piece_digests(data@, PIECE_LENGTH as int, k),
                pieces@.len() == 20 * k,
                forall|j: int| 0 <= j < k ==> #[trigger] sha1_of(piece_of(data@, PIECE_LENGTH as int, j)).len() == 20,
            decreases n - end,
        {
            let next = if n - end > PIECE_LENGTH {
                end + PIECE_LENGTH
            } else {
                n
            };
            let piece = crate::bcodec::bdecoder::sub_vec(data, end, next);
            let digest = sha1_digest(piece.as_slice());
            crate::messages::push_all(&mut pieces, digest.as_slice());
            proof {
                k = k + 1;
                assert(next == (if k * PIECE_LENGTH <= data@.len() {
                    k * PIECE_LENGTH
                } else {
                    data@.len() as int
                }));
                assert(piece@ == piece_of(data@, PIECE_LENGTH as int, k - 1));
            }
            end = next;
        }
        proof {
            assert(k == pieces_count(n as int, PIECE_LENGTH as int)) by (nonlinear_arith)
                requires
                    n <= k * PIECE_LENGTH < n + PIECE_LENGTH,
                    k * PIECE_LENGTH >= 0,
            ;
        }
        let mut info: Vec<(Vec<u8>, BValue)> = Vec::new();
        info.push((bytes_of("length"), BValue::Int(n as i64)));
        info.push((bytes_of("name"), BValue::ByteStr(bytes_of(name))));
        info.push((bytes_of("piece length"), BValue::Int(PIECE_LENGTH as i64)));
        info.push((bytes_of("pieces"), BValue::ByteStr(pieces)));
        let ghost info_model = sdict(info@);
        let mut torrent: Vec<(Vec<u8>, BValue)> = Vec::new();
        torrent.push((bytes_of("announce"), BValue::ByteStr(bytes_of(tracker_addr))));
        let info_value = BValue::Dict(info);
        proof {
            crate::bcodec::bvalue::lemma_sv_unfold(info_value);
        }
        torrent.push((bytes_of("info"), info_value));
        proof {
            let created = created_model(data@, name.spec_bytes(), tracker_addr.spec_bytes());
            assert(info_model =~= created->Dict_0[1].1->Dict_0);
            assert(sdict(torrent@) =~= created->Dict_0);
        }
        let mut encoder = BEncoder::new();
        encoder.add_dict(&torrent);
        let out = encoder.encode();
        crate::bcodec::bdecoder::sub_vec(out.as_slice(), 0, out.len())
    }
}

/// The sum of the lengths of the first `n` pieces.
pub open spec fn pieces_total(m: Metainfo, n: int) -> int
    decreases n,
{
    if n <= 0 {
        0
    } else {
        pieces_total(m, n - 1) + m.spec_piece_length(n - 1)
    }
}

/// All pieces but the last have the piece length.
proof fn lemma_full_pieces_total(m: Metainfo, k: int)
    requires
        0 <= k < m.pieces@.len(),
    ensures
        pieces_total(m, k) == k * (m.piece_length as usize as int),
    decreases k,
{
    let pl = m.piece_length as usize as int;
    if k > 0 {
        lemma_full_pieces_total(m, k - 1);
        assert(m.spec_piece_length(k - 1) == pl);
        assert(pieces_total(m, k) == pieces_total(m, k - 1) + pl);
        assert((k - 1) * pl + pl == k * pl) by (nonlinear_arith);
    } else {
        assert(k * pl == 0) by (nonlinear_arith)
            requires
                k == 0,
        ;
    }
}

/// When there are as many pieces as the files' length needs, the lengths of
/// the pieces add up to the length of the files: every piece has the piece
/// length but the last, which has what is left.
pub proof fn lemma_piece_lengths_total(m: Metainfo)
    requires
        m.wf(),
        0 < total_of(m.files@) <= usize::MAX,
        m.piece_length <= usize::MAX,
        m.pieces@.len() == pieces_count(total_of(m.files@), m.piece_length as int),
    ensures
        pieces_total(m, m.pieces@.len() as int) == total_of(m.files@),
{
    let n = m.pieces@.len() as int;
    let pl = m.piece_length as int;
    let total = total_of(m.files@);
    assert(m.piece_length as usize as int == pl);
    assert(((total as u64) as usize) as int == total);
    lemma_full_pieces_total(m, n - 1);
    assert(pieces_total(m, n) == (n - 1) * pl + m.spec_piece_length(n - 1));
    vstd::arithmetic::div_mod::lemma_fundamental_div_mod(total, pl);
    if total % pl == 0 {
        assert(n == total / pl);
        assert((n - 1) * pl + pl == n * pl) by (nonlinear_arith);
        assert(pl * (total / pl) == n * pl) by (nonlinear_arith)
            requires
                n == total / pl,
        ;
    } else {
        assert(n - 1 == total / pl);
        assert(pl * (total / pl) == (n - 1) * pl) by (nonlinear_arith)
            requires
                n - 1 == total / pl,
        ;
    }
}

proof fn lemma_total_prefix(fs: Seq<File>, i: int)
    requires
        0 < i <= fs.len(),
    ensures
        total_of(fs.subrange(0, i)) == total_of(fs.subrange(0, i - 1)) + fs[i - 1].length,
        total_of(fs.subrange(0, i)) <= total_of(fs),
    decreases fs.len() - i,
{
    assert(fs.subrange(0, i).drop_last() =~= fs.subrange(0, i - 1));
    if i < fs.len() {
        lemma_total_prefix(fs, i + 1);
    } else {
        assert(fs.subrange(0, i) =~= fs);
    }
}

proof fn lemma_total_usize_prefix(fs: Seq<File>, i: int)
    requires
        0 < i <= fs.len(),
    ensures
        total_usize_of(fs.subrange(0, i)) == total_usize_of(fs.subrange(0, i - 1)) + (fs[i
            - 1].length as usize),
        total_usize_of(fs.subrange(0, i)) <= total_usize_of(fs),
    decreases fs.len() - i,
{
    assert(fs.subrange(0, i).drop_last() =~= fs.subrange(0, i - 1));
    if i < fs.len() {
        lemma_total_usize_prefix(fs, i + 1);
    } else {
        assert(fs.subrange(0, i) =~= fs);
    }
}

/// Cuts a byte string whose length is a multiple of 20 into hashes.
fn split_hashes(b: &Vec<u8>) -> (r: Vec<[u8; HASH_SIZE]>)
    requires
        b@.len() % 20 == 0,
    ensures
        hashes_model(r@) == chunks20(b@),
{
    let mut res: Vec<[u8; HASH_SIZE]> = Vec::new();
    let len = b.len();
    let n = len / 20;
    let mut k: usize = 0;
    while k < n
        invariant
            len == b@.len(),
            n == len / 20,
            b@.len() % 20 == 0,
            k <= n,
            res@.len() == k,
            forall|j: int| 0 <= j < k ==> #[trigger] res@[j]@ == b@.subrange(20 * j, 20 * j + 20),
        decreases n - k,
    {
        assert(20 * k + 20 <= len) by (nonlinear_arith)
            requires
                k < n,
                n == len / 20,
        ;
        res.push(hash_at(b, 20 * k));
        k = k + 1;
    }
    assert(hashes_model(res@) =~= chunks20(b@));
    res
}

} // verus!
