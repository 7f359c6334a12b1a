//! Bundle2 part headers: their wire form, validation and recognition.
//!
//! A header body is laid out as: the type name's length (one byte), the type
//! name, the part id (big-endian `u32`), the number of mandatory parameters
//! (one byte), the number of advisory parameters (one byte), one
//! `(key length: u8, value length: u32 BE)` pair per parameter, and then each
//! parameter's key and value bytes, in declaration order.

use crate::buffer::be_u32;
use crate::errors::{DecodeFault, ErrorKind};
use crate::slices::{bytes_eq, copy_range, read_u32_at};
use vstd::prelude::*;

verus! {

/// The part types that this decoder recognizes.
#[derive(Clone, Copy, Debug, PartialEq, Eq, Structural)]
pub enum PartHeaderType {
    Changegroup,
    Replycaps,
    Listkeys,
    Pushkey,
    Pushvars,
    Obsmarkers,
    Bookmarks,
}

/// The lowercase wire name of a part type.
pub open spec fn part_type_name(t: PartHeaderType) -> Seq<u8> {
    match t {
        PartHeaderType::Changegroup => seq![99u8, 104, 97, 110, 103, 101, 103, 114, 111, 117, 112],
        PartHeaderType::Replycaps => seq![114u8, 101, 112, 108, 121, 99, 97, 112, 115],
        PartHeaderType::Listkeys => seq![108u8, 105, 115, 116, 107, 101, 121, 115],
        PartHeaderType::Pushkey => seq![112u8, 117, 115, 104, 107, 101, 121],
        PartHeaderType::Pushvars => seq![112u8, 117, 115, 104, 118, 97, 114, 115],
        PartHeaderType::Obsmarkers => seq![111u8, 98, 115, 109, 97, 114, 107, 101, 114, 115],
        PartHeaderType::Bookmarks => seq![98u8, 111, 111, 107, 109, 97, 114, 107, 115],
    }
}

pub open spec fn is_upper(b: u8) -> bool {
    65 <= b <= 90
}

pub open spec fn is_letter(b: u8) -> bool {
    is_upper(b) || 97 <= b <= 122
}

pub open spec fn to_lower(b: u8) -> u8 {
    if is_upper(b) {
        (b + 32) as u8
    } else {
        b
    }
}

/// A valid type name is non-empty and made of ASCII letters.
pub open spec fn valid_type_name(name: Seq<u8>) -> bool {
    name.len() > 0 && forall|i: int| 0 <= i < name.len() ==> is_letter(#[trigger] name[i])
}

/// The known part type whose name equals `name` up to ASCII case, if any.
pub open spec fn known_type(name: Seq<u8>) -> Option<PartHeaderType> {
    let l = name.map_values(|b: u8| to_lower(b));
    if l == part_type_name(PartHeaderType::Changegroup) {
        Some(PartHeaderType::Changegroup)
    } else if l == part_type_name(PartHeaderType::Replycaps) {
        Some(PartHeaderType::Replycaps)
    } else if l == part_type_name(PartHeaderType::Listkeys) {
        Some(PartHeaderType::Listkeys)
    } else if l == part_type_name(PartHeaderType::Pushkey) {
        Some(PartHeaderType::Pushkey)
    } else if l == part_type_name(PartHeaderType::Pushvars) {
        Some(PartHeaderType::Pushvars)
    } else if l == part_type_name(PartHeaderType::Obsmarkers) {
        Some(PartHeaderType::Obsmarkers)
    } else if l == part_type_name(PartHeaderType::Bookmarks) {
        Some(PartHeaderType::Bookmarks)
    } else {
        None
    }
}

/// A decoded part header, as values.
pub ghost struct HeaderModel {
    pub part_type: PartHeaderType,
    pub mandatory: bool,
    pub part_id: u32,
    pub mparams: Seq<(Seq<u8>, Seq<u8>)>,
    pub aparams: Seq<(Seq<u8>, Seq<u8>)>,
}

/// Whether two entries of `ps` share a key.
pub open spec fn has_dup_keys(ps: Seq<(Seq<u8>, Seq<u8>)>) -> bool {
    exists|i: int, j: int| 0 <= i < j < ps.len() && ps[i].0 == ps[j].0
}

// Offsets into a header body `s` whose type name is `n` bytes long.
pub open spec fn name_len(s: Seq<u8>) -> int {
    s[0] as int
}

pub open spec fn sizes_start(s: Seq<u8>) -> int {
    7 + name_len(s)
}

pub open spec fn n_mandatory(s: Seq<u8>) -> int {
    s[5 + name_len(s)] as int
}

pub open spec fn n_params(s: Seq<u8>) -> int {
    s[5 + name_len(s)] as int + s[6 + name_len(s)] as int
}

pub open spec fn data_start(s: Seq<u8>) -> int {
    sizes_start(s) + 5 * n_params(s)
}

pub open spec fn key_len(s: Seq<u8>, i: int) -> int {
    s[sizes_start(s) + 5 * i] as int
}

pub open spec fn value_len(s: Seq<u8>, i: int) -> int {
    be_u32(s.skip(sizes_start(s) + 5 * i + 1))
}

/// The number of key and value bytes of the first `k` parameters.
pub open spec fn data_len(s: Seq<u8>, k: int) -> int
    decreases k,
{
    if k <= 0 {
        0
    } else {
        data_len(s, k - 1) + key_len(s, k - 1) + value_len(s, k - 1)
    }
}

/// The `i`th parameter, counting mandatory ones first.
pub open spec fn param(s: Seq<u8>, i: int) -> (Seq<u8>, Seq<u8>) {
    let k = data_start(s) + data_len(s, i);
    (s.subrange(k, k + key_len(s, i)), s.subrange(k + key_len(s, i), k + key_len(s, i) + value_len(s, i)))
}

pub open spec fn type_name_of(s: Seq<u8>) -> Seq<u8> {
    s.subrange(1, 1 + name_len(s))
}

pub open spec fn mparams_of(s: Seq<u8>) -> Seq<(Seq<u8>, Seq<u8>)> {
    Seq::new(n_mandatory(s) as nat, |i: int| param(s, i))
}

pub open spec fn aparams_of(s: Seq<u8>) -> Seq<(Seq<u8>, Seq<u8>)> {
    Seq::new((n_params(s) - n_mandatory(s)) as nat, |i: int| param(s, n_mandatory(s) + i))
}

/// Decodes a header body `s`, rejecting parameter values longer than `cap`.
/// `Ok(None)` is an advisory part of an unknown type, to be discarded.
pub open spec fn decode_spec(s: Seq<u8>, cap: u32) -> Result<Option<HeaderModel>, ErrorKind> {
    if s.len() < 1 || s.len() < sizes_start(s) || s.len() < data_start(s) {
        Err(ErrorKind::Bundle2Decode(DecodeFault::TruncatedHeader))
    } else if exists|i: int| 0 <= i < n_params(s) && value_len(s, i) > cap {
        Err(ErrorKind::Bundle2Decode(DecodeFault::OversizeParamValue))
    } else if data_start(s) + data_len(s, n_params(s)) > s.len() {
        Err(ErrorKind::Bundle2Decode(DecodeFault::TruncatedHeader))
    } else if data_start(s) + data_len(s, n_params(s)) < s.len() {
        Err(ErrorKind::Bundle2Decode(DecodeFault::TrailingHeaderBytes))
    } else if !valid_type_name(type_name_of(s)) {
        Err(ErrorKind::InvalidPartType)
    } else if has_dup_keys(mparams_of(s)) || has_dup_keys(aparams_of(s)) {
        Err(ErrorKind::DuplicateParamKey)
    } else {
        let mandatory = is_upper(s[1]);
        match known_type(type_name_of(s)) {
            None => if mandatory {
                Err(ErrorKind::UnknownMandatoryPart)
            } else {
                Ok(None)
            },
            Some(t) => Ok(
                Some(
                    HeaderModel {
                        part_type: t,
                        mandatory,
                        part_id: be_u32(s.skip(1 + name_len(s))) as u32,
                        mparams: mparams_of(s),
                        aparams: aparams_of(s),
                    },
                ),
            ),
        }
    }
}

pub open spec fn params_view(ps: Seq<(Vec<u8>, Vec<u8>)>) -> Seq<(Seq<u8>, Seq<u8>)> {
    Seq::new(ps.len(), |i: int| (ps[i].0@, ps[i].1@))
}

/// A recognized part header.
#[derive(Debug)]
pub struct PartHeader {
    pub part_type: PartHeaderType,
    pub mandatory: bool,
    pub part_id: u32,
    pub mparams: Vec<(Vec<u8>, Vec<u8>)>,
    pub aparams: Vec<(Vec<u8>, Vec<u8>)>,
}

impl PartHeader {
    pub open spec fn view(&self) -> HeaderModel {
        HeaderModel {
            part_type: self.part_type,
            mandatory: self.mandatory,
            part_id: self.part_id,
            mparams: params_view(self.mparams@),
            aparams: params_view(self.aparams@),
        }
    }

    pub fn part_type(&self) -> (r: PartHeaderType)
        ensures
            r == self.part_type,
    {
        self.part_type
    }

    pub fn part_id(&self) -> (r: u32)
        ensures
            r == self.part_id,
    {
        self.part_id
    }
}

pub open spec fn header_result_view(r: Result<Option<PartHeader>, ErrorKind>) -> Result<
    Option<HeaderModel>,
    ErrorKind,
> {
    match r {
        Ok(Some(h)) => Ok(Some(h.view())),
        Ok(None) => Ok(None),
        Err(e) => Err(e),
    }
}

proof fn lemma_data_len_mono(s: Seq<u8>, j: int, k: int)
    requires
        0 <= j <= k,
        forall|i: int| 0 <= i < k ==> 0 <= #[trigger] value_len(s, i),
        forall|i: int| 0 <= i < k ==> 0 <= #[trigger] key_len(s, i),
    ensures
        data_len(s, j) <= data_len(s, k),
    decreases k - j,
{
    if j < k {
        lemma_data_len_mono(s, j, k - 1);
    }
}

fn is_letter_exec(b: u8) -> (r: bool)
    ensures
        r == is_letter(b),
{
    (65 <= b && b <= 90) || (97 <= b && b <= 122)
}

fn lower_exec(name: &Vec<u8>) -> (r: Vec<u8>)
    ensures
        r@ == name@.map_values(|b: u8| to_lower(b)),
{
    let mut r: Vec<u8> = Vec::with_capacity(name.len());
    let mut i: usize = 0;
    while i < name.len()
        invariant
            i <= name@.len(),
            r@ == name@.take(i as int).map_values(|b: u8| to_lower(b)),
        decreases name@.len() - i,
    {
        let b = name[i];
        if 65 <= b && b <= 90 {
            r.push(b + 32);
        } else {
            r.push(b);
        }
        i = i + 1;
        assert(r@ =~= name@.take(i as int).map_values(|b: u8| to_lower(b)));
    }
    assert(name@.take(name@.len() as int) =~= name@);
    r
}

fn part_type_name_exec(t: PartHeaderType) -> (r: Vec<u8>)
    ensures
        r@ == part_type_name(t),
{
    let r = match t {
        PartHeaderType::Changegroup => vec![99u8, 104, 97, 110, 103, 101, 103, 114, 111, 117, 112],
        PartHeaderType::Replycaps => vec![114u8, 101, 112, 108, 121, 99, 97, 112, 115],
        PartHeaderType::Listkeys => vec![108u8, 105, 115, 116, 107, 101, 121, 115],
        PartHeaderType::Pushkey => vec![112u8, 117, 115, 104, 107, 101, 121],
        PartHeaderType::Pushvars => vec![112u8, 117, 115, 104, 118, 97, 114, 115],
        PartHeaderType::Obsmarkers => vec![111u8, 98, 115, 109, 97, 114, 107, 101, 114, 115],
        PartHeaderType::Bookmarks => vec![98u8, 111, 111, 107, 109, 97, 114, 107, 115],
    };
    assert(r@ =~= part_type_name(t));
    r
}

/// The known part type named `name`, ignoring ASCII case.
pub fn recognize(name: &Vec<u8>) -> (r: Option<PartHeaderType>)
    ensures
        r == known_type(name@),
{
    let l = lower_exec(name);
    if bytes_eq(&l, &part_type_name_exec(PartHeaderType::Changegroup)) {
        Some(PartHeaderType::Changegroup)
    } else if bytes_eq(&l, &part_type_name_exec(PartHeaderType::Replycaps)) {
        Some(PartHeaderType::Replycaps)
    } else if bytes_eq(&l, &part_type_name_exec(PartHeaderType::Listkeys)) {
        Some(PartHeaderType::Listkeys)
    } else if bytes_eq(&l, &part_type_name_exec(PartHeaderType::Pushkey)) {
        Some(PartHeaderType::Pushkey)
    } else if bytes_eq(&l, &part_type_name_exec(PartHeaderType::Pushvars)) {
        Some(PartHeaderType::Pushvars)
    } else if bytes_eq(&l, &part_type_name_exec(PartHeaderType::Obsmarkers)) {
        Some(PartHeaderType::Obsmarkers)
    } else if bytes_eq(&l, &part_type_name_exec(PartHeaderType::Bookmarks)) {
        Some(PartHeaderType::Bookmarks)
    } else {
        None
    }
}

/// Whether two of `ps`'s entries share a key.
pub fn find_dup_keys(ps: &Vec<(Vec<u8>, Vec<u8>)>) -> (r: bool)
    ensures
        r == has_dup_keys(params_view(ps@)),
{
    let ghost pv = params_view(ps@);
    let mut j: usize = 0;
    while j < ps.len()
        invariant
            pv == params_view(ps@),
            j <= ps@.len(),
            forall|a: int, b: int| 0 <= a < b < j ==> pv[a].0 != pv[b].0,
        decreases ps@.len() - j,
    {
        let mut i: usize = 0;
        while i < j
            invariant
                pv == params_view(ps@),
                i <= j < ps@.len(),
                forall|a: int, b: int| 0 <= a < b < j ==> pv[a].0 != pv[b].0,
                forall|a: int| 0 <= a < i ==> pv[a].0 != pv[j as int].0,
            decreases j - i,
        {
            if bytes_eq(&ps[i].0, &ps[j].0) {
                assert(pv[i as int].0 == pv[j as int].0);
                return true;
            }
            i = i + 1;
        }
        j = j + 1;
    }
    false
}

fn valid_type_name_exec(name: &Vec<u8>) -> (r: bool)
    ensures
        r == valid_type_name(name@),
{
    if name.len() == 0 {
        return false;
    }
    let mut i: usize = 0;
    while i < name.len()
        invariant
            i <= name@.len(),
            forall|j: int| 0 <= j < i ==> is_letter(#[trigger] name@[j]),
        decreases name@.len() - i,
    {
        if !is_letter_exec(name[i]) {
            return false;
        }
        i = i + 1;
    }
    true
}

/// Decodes one part header body, validates it and recognizes its type.
/// Parameter values longer than `cap` bytes are refused as corrupt framing.
pub fn decode_header(s: &Vec<u8>, cap: u32) -> (r: Result<Option<PartHeader>, ErrorKind>)
    ensures
        header_result_view(r) == decode_spec(s@, cap),
{
    let len = s.len();
    if len < 1 {
        return Err(ErrorKind::Bundle2Decode(DecodeFault::TruncatedHeader));
    }
    let n = s[0] as usize;
    if len < 7 + n {
        return Err(ErrorKind::Bundle2Decode(DecodeFault::TruncatedHeader));
    }
    let part_id = read_u32_at(s, 1 + n);
    let m = s[5 + n] as usize;
    let count = m + s[6 + n] as usize;
    let base = 7 + n;
    if len < base + 5 * count {
        return Err(ErrorKind::Bundle2Decode(DecodeFault::TruncatedHeader));
    }
    let d0 = base + 5 * count;
    // Sizes: check each value length against the cap and add them up.
    let mut total: u64 = 0;
    let mut i: usize = 0;
    while i < count
        invariant
            len == s@.len(),
            n == name_len(s@),
            base == sizes_start(s@),
            count == n_params(s@),
            d0 == data_start(s@),
            d0 <= len,
            count <= 510,
            i <= count,
            total == data_len(s@, i as int),
            total <= i * (256 + cap as u64),
            forall|j: int| 0 <= j < i ==> value_len(s@, j) <= cap,
        decreases count - i,
    {
        let kl = s[base + 5 * i] as u64;
        let vl = read_u32_at(s, base + 5 * i + 1);
        if vl > cap {
            assert(value_len(s@, i as int) > cap);
            return Err(ErrorKind::Bundle2Decode(DecodeFault::OversizeParamValue));
        }
        proof {
            assert(i * (256 + cap as u64) + (256 + cap as u64) == (i + 1) * (256 + cap as u64))
                by (nonlinear_arith);
            assert((i + 1) * (256 + cap as u64) <= 510 * (256 + cap as u64)) by (nonlinear_arith)
                requires i + 1 <= 510;
        }
        total = total + kl + vl as u64;
        i = i + 1;
    }
    assert(!(exists|j: int| 0 <= j < n_params(s@) && value_len(s@, j) > cap));
    if total > (len - d0) as u64 {
        return Err(ErrorKind::Bundle2Decode(DecodeFault::TruncatedHeader));
    }
    if total < (len - d0) as u64 {
        return Err(ErrorKind::Bundle2Decode(DecodeFault::TrailingHeaderBytes));
    }
    let name = copy_range(s, 1, 1 + n);
    if !valid_type_name_exec(&name) {
        return Err(ErrorKind::InvalidPartType);
    }
    // Parameters: cut each key and value out of the data area.
    let mut mparams: Vec<(Vec<u8>, Vec<u8>)> = Vec::new();
    let mut aparams: Vec<(Vec<u8>, Vec<u8>)> = Vec::new();
    let mut off: usize = d0;
    let mut i: usize = 0;
    while i < count
        invariant
            len == s@.len(),
            n == name_len(s@),
            base == sizes_start(s@),
            m == n_mandatory(s@),
            count == n_params(s@),
            d0 == data_start(s@),
            d0 + data_len(s@, count as int) == len,
            d0 <= len,
            forall|j: int| 0 <= j < count ==> value_len(s@, j) <= cap,
            i <= count,
            off == d0 + data_len(s@, i as int),
            i <= m ==> mparams@.len() == i && aparams@.len() == 0,
            i > m ==> mparams@.len() == m && aparams@.len() == i - m,
            forall|j: int| 0 <= j < mparams@.len() ==> (#[trigger] params_view(mparams@)[j]) == param(s@, j),
            forall|j: int| 0 <= j < aparams@.len() ==> (#[trigger] params_view(aparams@)[j]) == param(s@, m + j),
        decreases count - i,
    {
        let kl = s[base + 5 * i] as usize;
        let vl = read_u32_at(s, base + 5 * i + 1) as usize;
        proof {
            assert forall|j: int| 0 <= j < count implies 0 <= #[trigger] value_len(s@, j) by {}
            assert forall|j: int| 0 <= j < count implies 0 <= #[trigger] key_len(s@, j) by {}
            lemma_data_len_mono(s@, i + 1, count as int);
        }
        let key = copy_range(s, off, off + kl);
        let value = copy_range(s, off + kl, off + kl + vl);
        let ghost pmv = params_view(mparams@);
        let ghost pav = params_view(aparams@);
        if i < m {
            mparams.push((key, value));
            assert forall|j: int| 0 <= j < mparams@.len() implies (#[trigger] params_view(mparams@)[j]) == param(s@, j) by {
                if j < i {
                    assert(params_view(mparams@)[j] == pmv[j]);
                }
            }
        } else {
            aparams.push((key, value));
            assert forall|j: int| 0 <= j < aparams@.len() implies (#[trigger] params_view(aparams@)[j]) == param(s@, m + j) by {
                if j < i - m {
                    assert(params_view(aparams@)[j] == pav[j]);
                }
            }
        }
        off = off + kl + vl;
        i = i + 1;
    }
    assert(params_view(mparams@) =~= mparams_of(s@));
    assert(params_view(aparams@) =~= aparams_of(s@));
    if find_dup_keys(&mparams) || find_dup_keys(&aparams) {
        return Err(ErrorKind::DuplicateParamKey);
    }
    let mandatory = 65 <= s[1] && s[1] <= 90;
    match recognize(&name) {
        None => if mandatory {
            Err(ErrorKind::UnknownMandatoryPart)
        } else {
            Ok(None)
        },
        Some(t) => Ok(Some(PartHeader { part_type: t, mandatory, part_id, mparams, aparams })),
    }
}

} // verus!
