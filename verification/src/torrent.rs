//! Extraction of a torrent description from a bencoded metainfo file.

use vstd::prelude::*;
use vstd::string::*;
use vstd::utf8::*;

use crate::bcodec::bdecoder::{fault_text, spec_decode, DecodeFault};
use crate::bcodec::bvalue::{dict_get, dict_lookup, sdict, svs, BValue, SValue};
use crate::text::{text, utf8_string};

verus! {

/// A file of a multi-file torrent.
#[derive(PartialEq, Clone, Debug)]
pub struct File {
    pub length: u64,
    pub path: String,
}

/// The description of a torrent: tracker, name, pieces and either one length
/// or a list of files.
#[derive(PartialEq, Debug)]
pub struct Torrent {
    pub announce: String,
    pub name: String,
    pub piece_length: u64,
    pub pieces: Vec<Vec<u8>>,
    pub length: Option<u64>,
    pub files: Option<Vec<File>>,
}

/// Model of a torrent description.
pub struct TorrentModel {
    pub announce: Seq<char>,
    pub name: Seq<char>,
    pub piece_length: int,
    pub pieces: Seq<Seq<u8>>,
    pub length: Option<int>,
    pub files: Option<Seq<(int, Seq<char>)>>,
}

/// A dictionary model.
pub type DictModel = Seq<(Seq<u8>, SValue)>;

impl File {
    /// The file as a (length, path) pair.
    pub open spec fn model(&self) -> (int, Seq<char>) {
        (self.length as int, self.path@)
    }
}

/// Models of a sequence of files.
pub open spec fn files_model(fs: Seq<File>) -> Seq<(int, Seq<char>)> {
    Seq::new(fs.len(), |i: int| fs[i].model())
}

/// Model of an optional list of files.
pub open spec fn opt_files_model(fs: Option<Vec<File>>) -> Option<Seq<(int, Seq<char>)>> {
    match fs {
        Some(v) => Some(files_model(v@)),
        None => None,
    }
}

/// Model of an optional unsigned integer.
pub open spec fn opt_int(o: Option<u64>) -> Option<int> {
    match o {
        Some(n) => Some(n as int),
        None => None,
    }
}

/// Models of a sequence of byte vectors.
pub open spec fn byte_seqs(v: Seq<Vec<u8>>) -> Seq<Seq<u8>> {
    Seq::new(v.len(), |i: int| v[i]@)
}

impl Torrent {
    /// The model of the description.
    pub open spec fn model(&self) -> TorrentModel {
        TorrentModel {
            announce: self.announce@,
            name: self.name@,
            piece_length: self.piece_length as int,
            pieces: byte_seqs(self.pieces@),
            length: opt_int(self.length),
            files: opt_files_model(self.files),
        }
    }
}

/// A text result taken by its view.
pub open spec fn text_res(r: Result<String, String>) -> Result<Seq<char>, Seq<char>> {
    match r {
        Ok(s) => Ok(s@),
        Err(e) => Err(e@),
    }
}

/// The message for an entry that is absent or has the wrong kind.
pub open spec fn missing_msg(field: Seq<char>) -> Seq<char> {
    "Incorrect or missing '"@ + field + "' value"@
}

/// The message for a byte string that is not UTF-8.
pub open spec fn utf8_msg(field: Seq<char>) -> Seq<char> {
    "Can't convert '"@ + field + "' to UTF-8"@
}

/// The message for a negative length of a piece.
pub open spec fn piece_length_msg() -> Seq<char> {
    "Can't convert 'piece length' to u64"@
}

/// The message for a pieces string whose length is no multiple of 20.
pub open spec fn pieces_msg() -> Seq<char> {
    "'pieces' not divisible by 20"@
}

/// The message for a description with both or neither of `length` and `files`.
pub open spec fn conflict_msg() -> Seq<char> {
    "Conflicting values 'length' and 'files'. Only one is allowed"@
}

/// The text of an optional byte-string entry, or the error for `field`.
pub open spec fn text_entry(v: Option<SValue>, field: Seq<char>) -> Result<Seq<char>, Seq<char>> {
    match v {
        Some(SValue::Str(b)) => if valid_utf8(b) {
            Ok(decode_utf8(b))
        } else {
            Err(utf8_msg(field))
        },
        _ => Err(missing_msg(field)),
    }
}

/// The `info` dictionary of a torrent dictionary.
pub open spec fn info_of(d: DictModel) -> Option<DictModel> {
    match dict_get(d, "info".spec_bytes()) {
        Some(SValue::Dict(i)) => Some(i),
        _ => None,
    }
}

/// The `announce` entry.
pub open spec fn spec_announce(d: DictModel) -> Result<Seq<char>, Seq<char>> {
    text_entry(dict_get(d, "announce".spec_bytes()), "announce"@)
}

/// The `name` entry of `info`.
pub open spec fn spec_name(d: DictModel) -> Result<Seq<char>, Seq<char>> {
    match info_of(d) {
        Some(i) => text_entry(dict_get(i, "name".spec_bytes()), "name"@),
        None => Err(missing_msg("info"@)),
    }
}

/// The `piece length` entry of `info`.
pub open spec fn spec_piece_length(d: DictModel) -> Result<int, Seq<char>> {
    match info_of(d) {
        Some(i) => match dict_get(i, "piece length".spec_bytes()) {
            Some(SValue::Int(n)) => if n >= 0 {
                Ok(n)
            } else {
                Err(piece_length_msg())
            },
            _ => Err(missing_msg("piece length"@)),
        },
        None => Err(missing_msg("info"@)),
    }
}

/// A byte string cut into consecutive chunks of 20 bytes.
pub open spec fn chunks20(b: Seq<u8>) -> Seq<Seq<u8>> {
    Seq::new(b.len() / 20, |k: int| b.subrange(20 * k, 20 * k + 20))
}

/// The `pieces` entry of `info`, cut into hashes of 20 bytes.
pub open spec fn spec_pieces(d: DictModel) -> Result<Seq<Seq<u8>>, Seq<char>> {
    match info_of(d) {
        Some(i) => match dict_get(i, "pieces".spec_bytes()) {
            Some(SValue::Str(b)) => if b.len() % 20 != 0 {
                Err(pieces_msg())
            } else {
                Ok(chunks20(b))
            },
            _ => Err(missing_msg("pieces"@)),
        },
        None => Err(missing_msg("info"@)),
    }
}

/// The `length` entry of `info`, where it is a non-negative integer.
pub open spec fn spec_length(d: DictModel) -> Option<int> {
    match info_of(d) {
        Some(i) => match dict_get(i, "length".spec_bytes()) {
            Some(SValue::Int(n)) => if n >= 0 {
                Some(n)
            } else {
                None
            },
            _ => None,
        },
        None => None,
    }
}

/// A file entry: a dictionary with a non-negative `length` and a UTF-8 `path`.
pub open spec fn file_of(v: SValue) -> Option<(int, Seq<char>)> {
    match v {
        SValue::Dict(d) => match (dict_get(d, "length".spec_bytes()), dict_get(d, "path".spec_bytes())) {
            (Some(SValue::Int(n)), Some(SValue::Str(p))) => if n >= 0 && valid_utf8(p) {
                Some((n, decode_utf8(p)))
            } else {
                None
            },
            _ => None,
        },
        _ => None,
    }
}

/// The valid file entries of a list, in order; the others are skipped.
pub open spec fn files_of(l: Seq<SValue>) -> Seq<(int, Seq<char>)>
    decreases l.len(),
{
    if l.len() == 0 {
        Seq::empty()
    } else {
        let rest = files_of(l.drop_last());
        match file_of(l.last()) {
            Some(f) => rest.push(f),
            None => rest,
        }
    }
}

/// The `files` entry of `info`, where it is a list.
pub open spec fn spec_files(d: DictModel) -> Option<Seq<(int, Seq<char>)>> {
    match info_of(d) {
        Some(i) => match dict_get(i, "files".spec_bytes()) {
            Some(SValue::List(l)) => Some(files_of(l)),
            _ => None,
        },
        None => None,
    }
}

/// The description held by one dictionary, or the first error met, in the
/// order announce, name, piece length, pieces, then the length/files check.
pub open spec fn spec_create(d: DictModel) -> Result<TorrentModel, Seq<char>> {
    match spec_announce(d) {
        Err(e) => Err(e),
        Ok(announce) => match spec_name(d) {
            Err(e) => Err(e),
            Ok(name) => match spec_piece_length(d) {
                Err(e) => Err(e),
                Ok(piece_length) => match spec_pieces(d) {
                    Err(e) => Err(e),
                    Ok(pieces) => {
                        let length = spec_length(d);
                        let files = spec_files(d);
                        if length.is_some() == files.is_some() {
                            Err(conflict_msg())
                        } else {
                            Ok(
                                TorrentModel {
                                    announce,
                                    name,
                                    piece_length,
                                    pieces,
                                    length,
                                    files,
                                },
                            )
                        }
                    },
                },
            },
        },
    }
}

/// The first description held by a dictionary among the values from `i` on;
/// failing that the error of the last dictionary, and `err` where none is.
pub open spec fn scan_values(vs: Seq<SValue>, i: int, err: Seq<char>) -> Result<TorrentModel, Seq<char>>
    decreases vs.len() - i,
{
    if i < 0 || i >= vs.len() {
        Err(err)
    } else {
        match vs[i] {
            SValue::Dict(d) => match spec_create(d) {
                Ok(t) => Ok(t),
                Err(e) => scan_values(vs, i + 1, e),
            },
            _ => scan_values(vs, i + 1, err),
        }
    }
}

/// The description extracted from a bencoded buffer.
pub open spec fn spec_from_bencode(s: Seq<u8>) -> Result<TorrentModel, Seq<char>> {
    match spec_decode(s) {
        Err(f) => Err(fault_text(f)),
        Ok(vs) => if vs.len() == 0 {
            Err("Empty torrent"@)
        } else {
            scan_values(vs, 0, "Missing data"@)
        },
    }
}

/// A torrent result taken by its model.
pub open spec fn torrent_res(r: Result<Torrent, String>) -> Result<TorrentModel, Seq<char>> {
    match r {
        Ok(t) => Ok(t.model()),
        Err(e) => Err(e@),
    }
}

fn missing_message(field: &str) -> (r: String)
    ensures
        r@ == missing_msg(field@),
{
    let mut s = text("Incorrect or missing '");
    s.append(field);
    s.append("' value");
    s
}

fn utf8_message(field: &str) -> (r: String)
    ensures
        r@ == utf8_msg(field@),
{
    let mut s = text("Can't convert '");
    s.append(field);
    s.append("' to UTF-8");
    s
}

/// Reads a byte-string entry as text.
fn text_of(v: Option<&BValue>, field: &str) -> (r: Result<String, String>)
    ensures
        text_res(r) == text_entry(
            match v {
                Some(b) => Some(b.sv()),
                None => None,
            },
            field@,
        ),
{
    match v {
        Some(BValue::ByteStr(b)) => match utf8_string(b.as_slice()) {
            Some(s) => Ok(s),
            None => Err(utf8_message(field)),
        },
        _ => Err(missing_message(field)),
    }
}

/// The `info` dictionary, if the entry is one.
fn info_dict(dict: &Vec<(Vec<u8>, BValue)>) -> (r: Option<&Vec<(Vec<u8>, BValue)>>)
    ensures
        match r {
            Some(i) => info_of(sdict(dict@)) == Some(sdict(i@)),
            None => info_of(sdict(dict@)) is None,
        },
{
    match dict_lookup(dict, "info".as_bytes()) {
        Some(BValue::Dict(i)) => {
            proof {
                crate::bcodec::bvalue::lemma_sv_unfold(BValue::Dict(*i));
            }
            Some(i)
        },
        _ => None,
    }
}

impl Torrent {
    /// Extracts a torrent description from bencoded bytes: the first
    /// dictionary that holds a valid description wins.
    pub fn from_bencode(arg: &[u8]) -> (r: Result<Torrent, String>)
        ensures
            torrent_res(r) == spec_from_bencode(arg@),
    {
        let bvalues = match BValue::parse(arg) {
            Ok(v) => v,
            Err(e) => return Err(e),
        };
        if bvalues.len() == 0 {
            return Err(text("Empty torrent"));
        }
        let ghost vs = svs(bvalues@);
        let mut err = text("Missing data");
        let mut i: usize = 0;
        while i < bvalues.len()
            invariant
                i <= bvalues@.len(),
                vs == svs(bvalues@),
                spec_decode(arg@) == Ok::<Seq<SValue>, DecodeFault>(vs),
                vs.len() > 0,
                scan_values(vs, 0, "Missing data"@) == scan_values(vs, i as int, err@),
            decreases bvalues@.len() - i,
        {
            match &bvalues[i] {
                BValue::Dict(dict) => {
                    proof {
                        crate::bcodec::bvalue::lemma_sv_unfold(bvalues@[i as int]);
                        assert(vs[i as int] == SValue::Dict(sdict(dict@)));
                    }
                    match Self::create_torrent(dict) {
                        Ok(torrent) => return Ok(torrent),
                        Err(e) => {
                            err = e;
                        },
                    }
                },
                _ => {},
            }
            i = i + 1;
        }
        Err(err)
    }

    /// Builds the description held by one dictionary.
    pub fn create_torrent(dict: &Vec<(Vec<u8>, BValue)>) -> (r: Result<Torrent, String>)
        ensures
            torrent_res(r) == spec_create(sdict(dict@)),
    {
        let announce = match Self::get_announce(dict) {
            Ok(a) => a,
            Err(e) => return Err(e),
        };
        let name = match Self::get_name(dict) {
            Ok(a) => a,
            Err(e) => return Err(e),
        };
        let piece_length = match Self::get_piece_length(dict) {
            Ok(a) => a,
            Err(e) => return Err(e),
        };
        let pieces = match Self::get_pieces(dict) {
            Ok(a) => a,
            Err(e) => return Err(e),
        };
        let length = Self::get_length(dict);
        let files = Self::get_files(dict);
        let torrent = Torrent { announce, name, piece_length, pieces, length, files };
        if !torrent.is_valid() {
            return Err(text("Conflicting values 'length' and 'files'. Only one is allowed"));
        }
        Ok(torrent)
    }

    /// The tracker URL.
    pub fn get_announce(dict: &Vec<(Vec<u8>, BValue)>) -> (r: Result<String, String>)
        ensures
            text_res(r) == spec_announce(sdict(dict@)),
    {
        text_of(dict_lookup(dict, "announce".as_bytes()), "announce")
    }

    /// The suggested name of the file or directory.
    pub fn get_name(dict: &Vec<(Vec<u8>, BValue)>) -> (r: Result<String, String>)
        ensures
            text_res(r) == spec_name(sdict(dict@)),
    {
        match info_dict(dict) {
            Some(info) => text_of(dict_lookup(info, "name".as_bytes()), "name"),
            None => Err(missing_message("info")),
        }
    }

    /// The number of bytes in each piece.
    pub fn get_piece_length(dict: &Vec<(Vec<u8>, BValue)>) -> (r: Result<u64, String>)
        ensures
            match r {
                Ok(n) => spec_piece_length(sdict(dict@)) == Ok::<int, Seq<char>>(n as int),
                Err(e) => spec_piece_length(sdict(dict@)) == Err::<int, Seq<char>>(e@),
            },
    {
        match info_dict(dict) {
            Some(info) => match dict_lookup(info, "piece length".as_bytes()) {
                Some(BValue::Int(length)) => {
                    if *length >= 0 {
                        Ok(*length as u64)
                    } else {
                        Err(text("Can't convert 'piece length' to u64"))
                    }
                },
                _ => Err(missing_message("piece length")),
            },
            None => Err(missing_message("info")),
        }
    }

    /// The SHA-1 hashes of the pieces, 20 bytes each.
    pub fn get_pieces(dict: &Vec<(Vec<u8>, BValue)>) -> (r: Result<Vec<Vec<u8>>, String>)
        ensures
            match r {
                Ok(p) => spec_pieces(sdict(dict@)) == Ok::<Seq<Seq<u8>>, Seq<char>>(
                    byte_seqs(p@),
                ),
                Err(e) => spec_pieces(sdict(dict@)) == Err::<Seq<Seq<u8>>, Seq<char>>(e@),
            },
    {
        match info_dict(dict) {
            Some(info) => match dict_lookup(info, "pieces".as_bytes()) {
                Some(BValue::ByteStr(pieces)) => {
                    if pieces.len() % 20 != 0 {
                        return Err(text("'pieces' not divisible by 20"));
                    }
                    Ok(split_chunks(pieces))
                },
                _ => Err(missing_message("pieces")),
            },
            None => Err(missing_message("info")),
        }
    }

    /// The length of the file of a single-file torrent.
    pub fn get_length(dict: &Vec<(Vec<u8>, BValue)>) -> (r: Option<u64>)
        ensures
            opt_int(r) == spec_length(sdict(dict@)),
    {
        match info_dict(dict) {
            Some(info) => match dict_lookup(info, "length".as_bytes()) {
                Some(BValue::Int(length)) => {
                    if *length >= 0 {
                        Some(*length as u64)
                    } else {
                        None
                    }
                },
                _ => None,
            },
            None => None,
        }
    }

    /// The files of a multi-file torrent.
    pub fn get_files(dict: &Vec<(Vec<u8>, BValue)>) -> (r: Option<Vec<File>>)
        ensures
            opt_files_model(r) == spec_files(sdict(dict@)),
    {
        match info_dict(dict) {
            Some(info) => match dict_lookup(info, "files".as_bytes()) {
                Some(BValue::List(list)) => {
                    proof {
                        crate::bcodec::bvalue::lemma_sv_unfold(BValue::List(*list));
                    }
                    Some(Self::get_files_list(list))
                },
                _ => None,
            },
            None => None,
        }
    }

    /// The valid file entries of a list, in order.
    pub fn get_files_list(list: &Vec<BValue>) -> (r: Vec<File>)
        ensures
            files_model(r@) == files_of(svs(list@)),
    {
        let mut res: Vec<File> = Vec::new();
        let mut i: usize = 0;
        while i < list.len()
            invariant
                i <= list@.len(),
                files_model(res@) == files_of(svs(list@).subrange(0, i as int)),
            decreases list@.len() - i,
        {
            let ghost pre = svs(list@).subrange(0, i + 1);
            assert(pre.drop_last() =~= svs(list@).subrange(0, i as int));
            assert(pre.last() == list@[i as int].sv());
            match &list[i] {
                BValue::Dict(dict) => {
                    proof {
                        crate::bcodec::bvalue::lemma_sv_unfold(list@[i as int]);
                    }
                    match (dict_lookup(dict, "length".as_bytes()), dict_lookup(dict, "path".as_bytes())) {
                        (Some(BValue::Int(length)), Some(BValue::ByteStr(path))) => {
                            if *length >= 0 {
                                match utf8_string(path.as_slice()) {
                                    Some(p) => {
                                        let ghost old_res = res@;
                                        res.push(File { length: *length as u64, path: p });
                                        assert(files_model(res@) =~= files_model(old_res).push(
                                            (*length as int, p@),
                                        ));
                                    },
                                    None => {},
                                }
                            }
                        },
                        _ => {},
                    }
                },
                _ => {},
            }
            i = i + 1;
        }
        assert(svs(list@).subrange(0, list@.len() as int) =~= svs(list@));
        res
    }

    /// Whether exactly one of `length` and `files` is present.
    pub fn is_valid(&self) -> (r: bool)
        ensures
            r == (self.length.is_some() != self.files.is_some()),
    {
        if self.length.is_some() && self.files.is_some() {
            return false;
        } else if self.length.is_none() && self.files.is_none() {
            return false;
        }
        true
    }
}

/// Cuts a byte string whose length is a multiple of 20 into chunks of 20.
fn split_chunks(b: &Vec<u8>) -> (r: Vec<Vec<u8>>)
    requires
        b@.len() % 20 == 0,
    ensures
        byte_seqs(r@) == chunks20(b@),
{
    let mut res: Vec<Vec<u8>> = Vec::new();
    let len = b.len();
    let n = len / 20;
    let mut k: usize = 0;
    while k < n
        invariant
            len == b@.len(),
            n == len / 20,
            b@.len() % 20 == 0,
            k <= n,
            res@.len() == k,
            forall|j: int| 0 <= j < k ==> #[trigger] res@[j]@ == b@.subrange(20 * j, 20 * j + 20),
        decreases n - k,
    {
        assert(20 * k + 20 <= len) by (nonlinear_arith)
            requires
                k < n,
                n == len / 20,
        ;
        let chunk = crate::bcodec::bdecoder::sub_vec(b.as_slice(), 20 * k, 20 * k + 20);
        res.push(chunk);
        k = k + 1;
    }
    assert(byte_seqs(res@) =~= chunks20(b@));
    res
}

} // verus!
