//! The response of a tracker: the announce interval and the peers.

use vstd::prelude::*;
use vstd::string::*;
use vstd::utf8::*;

use crate::bcodec::bdecoder::{fault_text, spec_decode, BDecoder, DecodeFault};
use crate::bcodec::bvalue::{dict_get, dict_lookup, sdict, svs, BValue, SValue};
use crate::constants::HASH_SIZE;
use crate::error::Error;
use crate::text::{
    append_dec, dec_chars, dec_value, is_dec_digit, lemma_dec_chars_reads_back, text, utf8_string,
};
use crate::torrent::DictModel;

verus! {

/// Response from the tracker.
#[derive(PartialEq, Clone, Debug)]
pub struct TrackerResp {
    pub interval: u64,
    pub peers: Vec<PeerAddr>,
}

/// A peer listed by the tracker.
#[derive(PartialEq, Clone, Debug)]
pub struct PeerAddr {
    pub ip: String,
    pub peer_id: [u8; HASH_SIZE],
    pub port: u64,
}

/// The errors of reading a tracker response.
pub enum TrackErr {
    IncorrectOrMissing(Seq<char>),
    RespFail(Seq<char>),
    BEncodeMissing,
    DataMissing,
    Decode(Seq<char>),
}

/// Whether an error is the one a response error stands for.
pub open spec fn track_err_is(e: Error, m: TrackErr) -> bool {
    match m {
        TrackErr::IncorrectOrMissing(f) => e matches Error::TrackerIncorrectOrMissing(s) && s@ == f,
        TrackErr::RespFail(f) => e matches Error::TrackerRespFail(s) && s@ == f,
        TrackErr::BEncodeMissing => e == Error::TrackerBEncodeMissing,
        TrackErr::DataMissing => e == Error::TrackerDataMissing,
        TrackErr::Decode(f) => e matches Error::Decode(s) && s@ == f,
    }
}

/// Model of a peer: ip, peer ID and port.
pub type PeerModel = (Seq<char>, Seq<u8>, int);

/// Model of a response: interval and peers.
pub type RespModel = (int, Seq<PeerModel>);

impl PeerAddr {
    pub open spec fn model(&self) -> PeerModel {
        (self.ip@, self.peer_id@, self.port as int)
    }
}

/// Models of peers.
pub open spec fn peers_model(ps: Seq<PeerAddr>) -> Seq<PeerModel> {
    Seq::new(ps.len(), |i: int| ps[i].model())
}

impl TrackerResp {
    pub open spec fn model(&self) -> RespModel {
        (self.interval as int, peers_model(self.peers@))
    }
}

/// The failure reason, where the response has one in UTF-8.
pub open spec fn spec_failure_reason(d: DictModel) -> Option<Seq<char>> {
    match dict_get(d, "failure reason".spec_bytes()) {
        Some(SValue::Str(b)) => if valid_utf8(b) {
            Some(decode_utf8(b))
        } else {
            None
        },
        _ => None,
    }
}

/// The announce interval.
pub open spec fn spec_interval(d: DictModel) -> Result<int, TrackErr> {
    match dict_get(d, "interval".spec_bytes()) {
        Some(SValue::Int(n)) => if n >= 0 {
            Ok(n)
        } else {
            Err(TrackErr::RespFail("interval"@))
        },
        _ => Err(TrackErr::IncorrectOrMissing("interval"@)),
    }
}

/// A peer entry: a dictionary with a UTF-8 `ip`, a `peer id` of 20 bytes
/// and a non-negative `port`.
pub open spec fn peer_of(v: SValue) -> Option<PeerModel> {
    match v {
        SValue::Dict(d) => match (
            dict_get(d, "ip".spec_bytes()),
            dict_get(d, "peer id".spec_bytes()),
            dict_get(d, "port".spec_bytes()),
        ) {
            (Some(SValue::Str(ip)), Some(SValue::Str(id)), Some(SValue::Int(port))) => if valid_utf8(
                ip,
            ) && id.len() == 20 && port >= 0 {
                Some((decode_utf8(ip), id, port))
            } else {
                None
            },
            _ => None,
        },
        _ => None,
    }
}

/// The valid peer entries of a list, in order.
pub open spec fn peers_of(l: Seq<SValue>) -> Seq<PeerModel>
    decreases l.len(),
{
    if l.len() == 0 {
        Seq::empty()
    } else {
        let rest = peers_of(l.drop_last());
        match peer_of(l.last()) {
            Some(p) => rest.push(p),
            None => rest,
        }
    }
}

/// The peers entry.
pub open spec fn spec_peers(d: DictModel) -> Result<Seq<PeerModel>, TrackErr> {
    match dict_get(d, "peers".spec_bytes()) {
        Some(SValue::List(l)) => Ok(peers_of(l)),
        _ => Err(TrackErr::IncorrectOrMissing("peers"@)),
    }
}

/// The response held by one dictionary.
pub open spec fn spec_resp_parse(d: DictModel) -> Result<RespModel, TrackErr> {
    match spec_failure_reason(d) {
        Some(reason) => Err(TrackErr::RespFail(reason)),
        None => match spec_interval(d) {
            Err(e) => Err(e),
            Ok(interval) => match spec_peers(d) {
                Err(e) => Err(e),
                Ok(peers) => Ok((interval, peers)),
            },
        },
    }
}

/// The first response held by a dictionary among the values from `i` on;
/// failing that the error of the last dictionary, and `err` where none is.
pub open spec fn scan_resp(vs: Seq<SValue>, i: int, err: TrackErr) -> Result<RespModel, TrackErr>
    decreases vs.len() - i,
{
    if i < 0 || i >= vs.len() {
        Err(err)
    } else {
        match vs[i] {
            SValue::Dict(d) => match spec_resp_parse(d) {
                Ok(m) => Ok(m),
                Err(e) => scan_resp(vs, i + 1, e),
            },
            _ => scan_resp(vs, i + 1, err),
        }
    }
}

/// The response read from a bencoded buffer.
pub open spec fn spec_resp_from_bencode(data: Seq<u8>) -> Result<RespModel, TrackErr> {
    match spec_decode(data) {
        Err(f) => Err(TrackErr::Decode(fault_text(f))),
        Ok(vs) => if vs.len() == 0 {
            Err(TrackErr::BEncodeMissing)
        } else {
            scan_resp(vs, 0, TrackErr::DataMissing)
        },
    }
}

/// The address of a peer: `ip:port`.
pub open spec fn addr_text(p: PeerModel) -> Seq<char> {
    p.0 + ":"@ + dec_chars(p.2 as nat)
}

/// The address text of a peer is its IP, a colon, and the port's full
/// decimal digits: the text after the colon is all digits, without a leading
/// zero, and reads back base 10 as the port.
pub proof fn lemma_addr_text_port(p: PeerModel)
    requires
        p.2 >= 0,
    ensures
        addr_text(p).subrange(0, p.0.len() as int) == p.0,
        addr_text(p)[p.0.len() as int] == ':',
        ({
            let digits = addr_text(p).subrange(p.0.len() + 1int, addr_text(p).len() as int);
            &&& digits.len() >= 1
            &&& forall|k: int| 0 <= k < digits.len() ==> is_dec_digit(#[trigger] digits[k])
            &&& dec_value(digits) == p.2
            &&& p.2 > 0 ==> digits[0] != '0'
        }),
{
    reveal_strlit(":");
    lemma_dec_chars_reads_back(p.2 as nat);
    let t = addr_text(p);
    let d = dec_chars(p.2 as nat);
    assert(t == p.0 + seq![':'] + d);
    assert(t.subrange(0, p.0.len() as int) =~= p.0);
    assert(t.subrange(p.0.len() + 1int, t.len() as int) =~= d);
}

/// Copies a slice of 20 bytes into an array.
fn id_array(b: &[u8]) -> (r: [u8; HASH_SIZE])
    requires
        b@.len() == 20,
    ensures
        r@ == b@,
{
    let mut r: [u8; HASH_SIZE] = [0; HASH_SIZE];
    let mut i: usize = 0;
    while i < 20
        invariant
            b@.len() == 20,
            i <= 20,
            r@.len() == 20,
            forall|j: int| 0 <= j < i ==> r@[j] == b@[j],
        decreases 20 - i,
    {
        r[i] = b[i];
        i = i + 1;
    }
    assert(r@ =~= b@);
    r
}

impl TrackerResp {
    /// Parses a tracker response from bencoded bytes: the first dictionary
    /// that holds a valid response wins; otherwise the error of the last one.
    pub fn from_bencode(data: &[u8]) -> (r: Result<TrackerResp, Error>)
        ensures
            match (r, spec_resp_from_bencode(data@)) {
                (Ok(t), Ok(m)) => t.model() == m,
                (Err(e), Err(m)) => track_err_is(e, m),
                _ => false,
            },
    {
        let bvalues = match BDecoder::from_array(data) {
            Ok(v) => v,
            Err(e) => return Err(e),
        };
        if bvalues.len() == 0 {
            return Err(Error::TrackerBEncodeMissing);
        }
        let ghost vs = svs(bvalues@);
        let ghost mut err_m = TrackErr::DataMissing;
        let mut err = Error::TrackerDataMissing;
        let mut i: usize = 0;
        while i < bvalues.len()
            invariant
                i <= bvalues@.len(),
                vs == svs(bvalues@),
                spec_decode(data@) == Ok::<Seq<SValue>, DecodeFault>(vs),
                vs.len() > 0,
                track_err_is(err, err_m),
                scan_resp(vs, 0, TrackErr::DataMissing) == scan_resp(vs, i as int, err_m),
            decreases bvalues@.len() - i,
        {
            match &bvalues[i] {
                BValue::Dict(dict) => {
                    proof {
                        crate::bcodec::bvalue::lemma_sv_unfold(bvalues@[i as int]);
                        assert(vs[i as int] == SValue::Dict(sdict(dict@)));
                    }
                    match Self::parse(dict) {
                        Ok(t) => return Ok(t),
                        Err(e) => {
                            proof {
                                err_m = spec_resp_parse(sdict(dict@))->Err_0;
                            }
                            err = e;
                        },
                    }
                },
                _ => {},
            }
            i = i + 1;
        }
        Err(err)
    }

    /// The response held by one dictionary: a failure reason is an error.
    pub fn parse(dict: &Vec<(Vec<u8>, BValue)>) -> (r: Result<TrackerResp, Error>)
        ensures
            match (r, spec_resp_parse(sdict(dict@))) {
                (Ok(t), Ok(m)) => t.model() == m,
                (Err(e), Err(m)) => track_err_is(e, m),
                _ => false,
            },
    {
        if let Some(reason) = Self::find_failure_reason(dict) {
            return Err(Error::TrackerRespFail(reason));
        }
        let interval = match Self::find_interval(dict) {
            Ok(i) => i,
            Err(e) => return Err(e),
        };
        let peers = match Self::find_peers(dict) {
            Ok(p) => p,
            Err(e) => return Err(e),
        };
        Ok(TrackerResp { interval, peers })
    }

    fn find_failure_reason(dict: &Vec<(Vec<u8>, BValue)>) -> (r: Option<String>)
        ensures
            match r {
                Some(s) => spec_failure_reason(sdict(dict@)) == Some(s@),
                None => spec_failure_reason(sdict(dict@)) is None,
            },
    {
        match dict_lookup(dict, "failure reason".as_bytes()) {
            Some(BValue::ByteStr(reason)) => utf8_string(reason.as_slice()),
            _ => None,
        }
    }

    fn find_interval(dict: &Vec<(Vec<u8>, BValue)>) -> (r: Result<u64, Error>)
        ensures
            match (r, spec_interval(sdict(dict@))) {
                (Ok(n), Ok(m)) => n == m,
                (Err(e), Err(m)) => track_err_is(e, m),
                _ => false,
            },
    {
        match dict_lookup(dict, "interval".as_bytes()) {
            Some(BValue::Int(interval)) => {
                if *interval >= 0 {
                    Ok(*interval as u64)
                } else {
                    Err(Error::TrackerRespFail(text("interval")))
                }
            },
            _ => Err(Error::TrackerIncorrectOrMissing(text("interval"))),
        }
    }

    fn find_peers(dict: &Vec<(Vec<u8>, BValue)>) -> (r: Result<Vec<PeerAddr>, Error>)
        ensures
            match (r, spec_peers(sdict(dict@))) {
                (Ok(p), Ok(m)) => peers_model(p@) == m,
                (Err(e), Err(m)) => track_err_is(e, m),
                _ => false,
            },
    {
        match dict_lookup(dict, "peers".as_bytes()) {
            Some(BValue::List(peers)) => {
                proof {
                    crate::bcodec::bvalue::lemma_sv_unfold(BValue::List(*peers));
                }
                Ok(Self::peer_list(peers))
            },
            _ => Err(Error::TrackerIncorrectOrMissing(text("peers"))),
        }
    }

    fn peer_list(list: &Vec<BValue>) -> (r: Vec<PeerAddr>)
        ensures
            peers_model(r@) == peers_of(svs(list@)),
    {
        let mut res: Vec<PeerAddr> = Vec::new();
        let mut i: usize = 0;
        while i < list.len()
            invariant
                i <= list@.len(),
                peers_model(res@) == peers_of(svs(list@).subrange(0, i as int)),
            decreases list@.len() - i,
        {
            let ghost pre = svs(list@).subrange(0, i + 1);
            assert(pre.drop_last() =~= svs(list@).subrange(0, i as int));
            assert(pre.last() == list@[i as int].sv());
            match &list[i] {
                BValue::Dict(dict) => {
                    proof {
                        crate::bcodec::bvalue::lemma_sv_unfold(list@[i as int]);
                    }
                    match (
                        dict_lookup(dict, "ip".as_bytes()),
                        dict_lookup(dict, "peer id".as_bytes()),
                        dict_lookup(dict, "port".as_bytes()),
                    ) {
                        (
                            Some(BValue::ByteStr(ip)),
                            Some(BValue::ByteStr(peer_id)),
                            Some(BValue::Int(port)),
                        ) => {
                            if peer_id.len() == 20 && *port >= 0 {
                                match utf8_string(ip.as_slice()) {
                                    Some(ip) => {
                                        let ghost old_res = res@;
                                        let id = id_array(peer_id.as_slice());
                                        res.push(PeerAddr { ip, peer_id: id, port: *port as u64 });
                                        assert(peers_model(res@) =~= peers_model(old_res).push(
                                            res@.last().model(),
                                        ));
                                    },
                                    None => {},
                                }
                            }
                        },
                        _ => {},
                    }
                },
                _ => {},
            }
            i = i + 1;
        }
        assert(svs(list@).subrange(0, list@.len() as int) =~= svs(list@));
        res
    }

    /// The addresses (`ip:port`) and IDs of the peers.
    pub fn peers(&self) -> (r: Vec<(String, [u8; HASH_SIZE])>)
        ensures
            r@.len() == self.peers@.len(),
            forall|i: int|
                0 <= i < r@.len() ==> (#[trigger] r@[i]).0@ == addr_text(self.peers@[i].model())
                    && r@[i].1@ == self.peers@[i].peer_id@,
    {
        let mut res: Vec<(String, [u8; HASH_SIZE])> = Vec::new();
        let mut i: usize = 0;
        while i < self.peers.len()
            invariant
                i <= self.peers@.len(),
                res@.len() == i,
                forall|j: int|
                    0 <= j < i ==> (#[trigger] res@[j]).0@ == addr_text(self.peers@[j].model())
                        && res@[j].1@ == self.peers@[j].peer_id@,
            decreases self.peers@.len() - i,
        {
            let p = &self.peers[i];
            let mut addr = p.ip.clone();
            addr.append(":");
            append_dec(&mut addr, p.port);
            res.push((addr, p.peer_id));
            i = i + 1;
        }
        res
    }
}

} // verus!
