use crate::canonical::enc;
use crate::encode::{encode, push_bytes};
use crate::decode::{decode, decodes_to, lemma_decodes_to_unique};
use crate::error::Error;
use crate::hash::{sha1_digest, sha1_of};
use crate::fields::{
    find, find_flag, find_int, find_size, find_text, find_texts, get_int, get_size, get_text,
    get_texts, int_of, lookup, opt_flag_field, opt_int_field, opt_size_field, opt_text,
    opt_text_field, opt_texts, opt_texts_field, size_of, text_list_of, text_of,
};
use crate::value::{lemma_view_list, view_entries, view_list, Bencode, Value};
use vstd::prelude::*;
use vstd::string::StringSliceAdditionalSpecFns;
use vstd::utf8::encode_utf8;

verus! {

broadcast use {vstd::seq::group_seq_axioms, vstd::std_specs::vec::group_vec_axioms};

/// The model of a file entry of a multi-file torrent.
pub ghost struct FileModel {
    pub length: int,
    pub path: Seq<Seq<char>>,
    pub md5sum: Option<Seq<char>>,
}

/// One file of a multi-file torrent: its length and its path, one segment per
/// element.
pub struct File {
    length: i64,
    path: Vec<String>,
    md5sum: Option<String>,
}

impl View for File {
    type V = FileModel;

    closed spec fn view(&self) -> FileModel {
        FileModel {
            length: self.length as int,
            path: self.path.deep_view(),
            md5sum: opt_text(self.md5sum),
        }
    }
}

/// A file entry read from a dictionary: `length` and `path` must be there.
pub open spec fn file_of(m: Bencode) -> Result<FileModel, Error> {
    match m {
        Bencode::Dict(d) => {
            let length = match lookup(d, "length".spec_bytes()) {
                None => Err(Error::MissingFieldError),
                Some(x) => size_of(x),
            };
            let path = match lookup(d, "path".spec_bytes()) {
                None => Err(Error::MissingFieldError),
                Some(x) => text_list_of(x),
            };
            let md5sum = opt_text_field(d, "md5sum".spec_bytes());
            if length is Err {
                Err(length->Err_0)
            } else if path is Err {
                Err(path->Err_0)
            } else if md5sum is Err {
                Err(md5sum->Err_0)
            } else {
                Ok(FileModel { length: length->Ok_0, path: path->Ok_0, md5sum: md5sum->Ok_0 })
            }
        },
        _ => Err(Error::TypeMismatchError),
    }
}

pub open spec fn files_of(l: Seq<Bencode>) -> Result<Seq<FileModel>, Error>
    decreases l.len(),
{
    if l.len() == 0 {
        Ok(Seq::empty())
    } else {
        match files_of(l.drop_last()) {
            Err(e) => Err(e),
            Ok(s) => match file_of(l.last()) {
                Err(e) => Err(e),
                Ok(f) => Ok(s.push(f)),
            },
        }
    }
}

/// The list of file entries.
pub open spec fn file_list_of(m: Bencode) -> Result<Seq<FileModel>, Error> {
    match m {
        Bencode::List(l) => files_of(l),
        _ => Err(Error::TypeMismatchError),
    }
}

pub proof fn lemma_files_prefix_err(l: Seq<Bencode>, k: int, e: Error)
    requires
        0 <= k <= l.len(),
        files_of(l.take(k)) == Err::<Seq<FileModel>, Error>(e),
    ensures
        files_of(l) == Err::<Seq<FileModel>, Error>(e),
    decreases l.len() - k,
{
    if k < l.len() {
        assert(l.take(k + 1).drop_last() =~= l.take(k));
        lemma_files_prefix_err(l, k + 1, e);
    } else {
        assert(l.take(k) =~= l);
    }
}

/// Every file read from a list has a length that is not negative.
pub proof fn lemma_files_nonneg(l: Seq<Bencode>)
    ensures
        files_of(l) matches Ok(fs) ==> forall|j: int|
            0 <= j < fs.len() ==> (#[trigger] fs[j]).length >= 0,
    decreases l.len(),
{
    if l.len() > 0 {
        lemma_files_nonneg(l.drop_last());
    }
}

/// The models of a list of files.
pub open spec fn files_view(fs: Seq<File>) -> Seq<FileModel> {
    fs.map_values(|f: File| f@)
}

impl File {
    /// A file of the given length and path, with no checksum.
    pub fn new(length: i64, path: Vec<String>) -> (r: Self)
        ensures
            r@ == (FileModel { length: length as int, path: path.deep_view(), md5sum: None }),
    {
        File { length, path, md5sum: None }
    }

    /// The length of the file in bytes.
    pub fn length(&self) -> (r: &i64)
        ensures
            *r as int == self@.length,
    {
        &self.length
    }

    /// The segments of the file's path.
    pub fn path(&self) -> (r: &[String])
        ensures
            r@.map_values(|s: String| s@) == self@.path,
    {
        proof {
            assert(self.path@.map_values(|s: String| s@) =~= self.path.deep_view());
        }
        self.path.as_slice()
    }

    /// Reads a file entry from a dictionary value.
    pub fn from_value(v: &Value) -> (r: Result<File, Error>)
        ensures
            match r {
                Ok(f) => file_of(v@) == Ok::<FileModel, Error>(f@),
                Err(e) => file_of(v@) == Err::<FileModel, Error>(e),
            },
    {
        match v {
            Value::Dict(d) => {
                let length = match find(d, "length".as_bytes()) {
                    None => {
                        return Err(Error::MissingFieldError);
                    },
                    Some(x) => match get_size(x) {
                        Ok(n) => n,
                        Err(e) => {
                            return Err(e);
                        },
                    },
                };
                let path = match find(d, "path".as_bytes()) {
                    None => {
                        return Err(Error::MissingFieldError);
                    },
                    Some(x) => match get_texts(x) {
                        Ok(p) => p,
                        Err(e) => {
                            return Err(e);
                        },
                    },
                };
                let md5sum = match find_text(d, "md5sum") {
                    Ok(m) => m,
                    Err(e) => {
                        return Err(e);
                    },
                };
                Ok(File { length, path, md5sum })
            },
            _ => Err(Error::TypeMismatchError),
        }
    }
}

/// Reads a list of file entries.
fn files_from_value(v: &Value) -> (r: Result<Vec<File>, Error>)
    ensures
        match r {
            Ok(fs) => file_list_of(v@) == Ok::<Seq<FileModel>, Error>(files_view(fs@)),
            Err(e) => file_list_of(v@) == Err::<Seq<FileModel>, Error>(e),
        },
{
    match v {
        Value::List(l) => {
            proof {
                lemma_view_list(l@);
            }
            let ghost vl = view_list(l@);
            let mut out: Vec<File> = Vec::new();
            let mut i: usize = 0;
            assert(vl.take(0) =~= Seq::<Bencode>::empty());
            assert(files_view(out@) =~= Seq::<FileModel>::empty());
            while i < l.len()
                invariant
                    i <= l@.len(),
                    vl == view_list(l@),
                    *v == Value::List(*l),
                    vl.len() == l@.len(),
                    forall|t: int| 0 <= t < l@.len() ==> #[trigger] vl[t] == l@[t]@,
                    files_of(vl.take(i as int)) == Ok::<Seq<FileModel>, Error>(files_view(out@)),
                decreases l@.len() - i,
            {
                assert(vl.take(i + 1).drop_last() =~= vl.take(i as int));
                let f = match File::from_value(&l[i]) {
                    Ok(f) => f,
                    Err(e) => {
                        proof {
                            assert(vl.take(i + 1).last() == vl[i as int]);
                            lemma_files_prefix_err(vl, i as int + 1, e);
                        }
                        return Err(e);
                    },
                };
                let ghost old_out = files_view(out@);
                out.push(f);
                assert(files_view(out@) =~= old_out.push(f@));
                i += 1;
            }
            assert(vl.take(l@.len() as int) =~= vl);
            Ok(out)
        },
        _ => Err(Error::TypeMismatchError),
    }
}

/// The model of the info dictionary.
pub ghost struct InfoModel {
    pub files: Option<Seq<FileModel>>,
    pub length: Option<int>,
    pub md5sum: Option<Seq<char>>,
    pub name: Option<Seq<char>>,
    pub path: Option<Seq<Seq<char>>>,
    pub piece_length: int,
    pub pieces: Seq<u8>,
    pub private: Option<int>,
    pub root_hash: Option<Seq<char>>,
}

/// The sum of the lengths of `fs`.
pub open spec fn sum_lengths(fs: Seq<FileModel>) -> int
    decreases fs.len(),
{
    if fs.len() == 0 {
        0
    } else {
        sum_lengths(fs.drop_last()) + fs.last().length
    }
}

/// No length is negative, and the lengths of the files add up to a 64-bit integer.
pub open spec fn sizes_ok(i: InfoModel) -> bool {
    &&& i.piece_length >= 0
    &&& (i.length matches Some(n) ==> n >= 0)
    &&& (i.files matches Some(fs) ==> (forall|j: int|
        0 <= j < fs.len() ==> (#[trigger] fs[j]).length >= 0) && sum_lengths(fs) <= i64::MAX)
}

/// The info dictionary read from a value. `piece length` defaults to zero and
/// `pieces` to nothing; the file lengths must add up to a 64-bit integer.
pub open spec fn info_of(m: Bencode) -> Result<InfoModel, Error> {
    match m {
        Bencode::Dict(d) => {
            let files = match lookup(d, "files".spec_bytes()) {
                None => Ok(None),
                Some(x) => match file_list_of(x) {
                    Ok(fs) => Ok(Some(fs)),
                    Err(e) => Err(e),
                },
            };
            let length = opt_size_field(d, "length".spec_bytes());
            let md5sum = opt_text_field(d, "md5sum".spec_bytes());
            let name = opt_text_field(d, "name".spec_bytes());
            let path = opt_texts_field(d, "path".spec_bytes());
            let piece_length = match lookup(d, "piece length".spec_bytes()) {
                None => Ok(0),
                Some(x) => size_of(x),
            };
            let pieces = match lookup(d, "pieces".spec_bytes()) {
                None => Ok(Seq::empty()),
                Some(Bencode::Bytes(b)) => Ok(b),
                Some(_) => Err(Error::TypeMismatchError),
            };
            let private = opt_flag_field(d, "private".spec_bytes());
            let root_hash = opt_text_field(d, "root hash".spec_bytes());
            if files is Err {
                Err(files->Err_0)
            } else if length is Err {
                Err(length->Err_0)
            } else if md5sum is Err {
                Err(md5sum->Err_0)
            } else if name is Err {
                Err(name->Err_0)
            } else if path is Err {
                Err(path->Err_0)
            } else if piece_length is Err {
                Err(piece_length->Err_0)
            } else if pieces is Err {
                Err(pieces->Err_0)
            } else if private is Err {
                Err(private->Err_0)
            } else if root_hash is Err {
                Err(root_hash->Err_0)
            } else if files->Ok_0 matches Some(fs) && sum_lengths(fs) > i64::MAX {
                Err(Error::RangeError)
            } else {
                Ok(
                    InfoModel {
                        files: files->Ok_0,
                        length: length->Ok_0,
                        md5sum: md5sum->Ok_0,
                        name: name->Ok_0,
                        path: path->Ok_0,
                        piece_length: piece_length->Ok_0,
                        pieces: pieces->Ok_0,
                        private: private->Ok_0,
                        root_hash: root_hash->Ok_0,
                    },
                )
            }
        },
        _ => Err(Error::TypeMismatchError),
    }
}

/// The info dictionary: the files of the torrent and the digests of its pieces.
pub struct Info {
    files: Option<Vec<File>>,
    length: Option<i64>,
    md5sum: Option<String>,
    name: Option<String>,
    path: Option<Vec<String>>,
    piece_length: i64,
    pieces: Vec<u8>,
    private: Option<u8>,
    root_hash: Option<String>,
}

pub open spec fn opt_int(x: Option<i64>) -> Option<int> {
    match x {
        Some(i) => Some(i as int),
        None => None,
    }
}

pub open spec fn opt_flag(x: Option<u8>) -> Option<int> {
    match x {
        Some(i) => Some(i as int),
        None => None,
    }
}

pub open spec fn opt_files(x: Option<Vec<File>>) -> Option<Seq<FileModel>> {
    match x {
        Some(fs) => Some(files_view(fs@)),
        None => None,
    }
}

impl View for Info {
    type V = InfoModel;

    closed spec fn view(&self) -> InfoModel {
        InfoModel {
            files: opt_files(self.files),
            length: opt_int(self.length),
            md5sum: opt_text(self.md5sum),
            name: opt_text(self.name),
            path: opt_texts(self.path),
            piece_length: self.piece_length as int,
            pieces: self.pieces@,
            private: opt_flag(self.private),
            root_hash: opt_text(self.root_hash),
        }
    }
}

/// A file list whose lengths are not negative: a prefix sums to no more than the whole.
pub proof fn lemma_sum_prefix(fs: Seq<FileModel>, k: int)
    requires
        0 <= k <= fs.len(),
        forall|j: int| 0 <= j < fs.len() ==> (#[trigger] fs[j]).length >= 0,
    ensures
        sum_lengths(fs.take(k)) <= sum_lengths(fs),
    decreases fs.len(),
{
    if k < fs.len() {
        assert(fs.drop_last().take(k) =~= fs.take(k));
        lemma_sum_prefix(fs.drop_last(), k);
    } else {
        assert(fs.take(k) =~= fs);
    }
}

/// Adds up the lengths of the files, or fails when the sum exceeds 64 bits.
fn sum_file_lengths(fs: &Vec<File>) -> (r: Result<i64, Error>)
    requires
        forall|j: int| 0 <= j < fs@.len() ==> (#[trigger] files_view(fs@)[j]).length >= 0,
    ensures
        match r {
            Ok(n) => n as int == sum_lengths(files_view(fs@)),
            Err(e) => e == Error::RangeError && sum_lengths(files_view(fs@)) > i64::MAX,
        },
{
    let ghost m = files_view(fs@);
    let mut acc: i64 = 0;
    let mut i: usize = 0;
    assert(m.take(0) =~= Seq::<FileModel>::empty());
    while i < fs.len()
        invariant
            i <= fs@.len(),
            m == files_view(fs@),
            forall|j: int| 0 <= j < fs@.len() ==> (#[trigger] m[j]).length >= 0,
            acc as int == sum_lengths(m.take(i as int)),
            acc >= 0,
        decreases fs@.len() - i,
    {
        assert(m.take(i + 1).drop_last() =~= m.take(i as int));
        assert(m[i as int] == fs@[i as int]@);
        let n = fs[i].length;
        if n > i64::MAX - acc {
            proof {
                lemma_sum_prefix(m, i + 1);
            }
            return Err(Error::RangeError);
        }
        acc = acc + n;
        i += 1;
    }
    assert(m.take(fs@.len() as int) =~= m);
    Ok(acc)
}

impl Info {
    #[verifier::type_invariant]
    spec fn wf(&self) -> bool {
        sizes_ok(self@)
    }

    /// Reads the info dictionary from a value.
    pub fn from_value(v: &Value) -> (r: Result<Info, Error>)
        ensures
            match r {
                Ok(i) => info_of(v@) == Ok::<InfoModel, Error>(i@),
                Err(e) => info_of(v@) == Err::<InfoModel, Error>(e),
            },
    {
        match v {
            Value::Dict(d) => {
                let files = match find(d, "files".as_bytes()) {
                    None => None,
                    Some(x) => match files_from_value(x) {
                        Ok(fs) => {
                            proof {
                                if let Bencode::List(l) = x@ {
                                    lemma_files_nonneg(l);
                                }
                            }
                            Some(fs)
                        },
                        Err(e) => {
                            return Err(e);
                        },
                    },
                };
                let length = match find_size(d, "length") {
                    Ok(x) => x,
                    Err(e) => {
                        return Err(e);
                    },
                };
                let md5sum = match find_text(d, "md5sum") {
                    Ok(x) => x,
                    Err(e) => {
                        return Err(e);
                    },
                };
                let name = match find_text(d, "name") {
                    Ok(x) => x,
                    Err(e) => {
                        return Err(e);
                    },
                };
                let path = match find_texts(d, "path") {
                    Ok(x) => x,
                    Err(e) => {
                        return Err(e);
                    },
                };
                let piece_length = match find(d, "piece length".as_bytes()) {
                    None => 0,
                    Some(x) => match get_size(x) {
                        Ok(n) => n,
                        Err(e) => {
                            return Err(e);
                        },
                    },
                };
                let pieces = match find(d, "pieces".as_bytes()) {
                    None => Vec::new(),
                    Some(Value::Bytes(b)) => b.clone(),
                    Some(_) => {
                        return Err(Error::TypeMismatchError);
                    },
                };
                let private = match find_flag(d, "private") {
                    Ok(x) => x,
                    Err(e) => {
                        return Err(e);
                    },
                };
                let root_hash = match find_text(d, "root hash") {
                    Ok(x) => x,
                    Err(e) => {
                        return Err(e);
                    },
                };
                if let Some(fs) = &files {
                    if let Err(e) = sum_file_lengths(fs) {
                        return Err(e);
                    }
                }
                Ok(
                    Info {
                        files,
                        length,
                        md5sum,
                        name,
                        path,
                        piece_length,
                        pieces,
                        private,
                        root_hash,
                    },
                )
            },
            _ => Err(Error::TypeMismatchError),
        }
    }
}

/// A DHT bootstrap node: a host and a port.
pub open spec fn node_of(m: Bencode) -> Result<(Seq<char>, int), Error> {
    match m {
        Bencode::List(l) => if l.len() == 2 {
            match text_of(l[0]) {
                Err(e) => Err(e),
                Ok(h) => match int_of(l[1]) {
                    Err(e) => Err(e),
                    Ok(p) => Ok((h, p)),
                },
            }
        } else {
            Err(Error::TypeMismatchError)
        },
        _ => Err(Error::TypeMismatchError),
    }
}

pub open spec fn nodes_of(l: Seq<Bencode>) -> Result<Seq<(Seq<char>, int)>, Error>
    decreases l.len(),
{
    if l.len() == 0 {
        Ok(Seq::empty())
    } else {
        match nodes_of(l.drop_last()) {
            Err(e) => Err(e),
            Ok(s) => match node_of(l.last()) {
                Err(e) => Err(e),
                Ok(n) => Ok(s.push(n)),
            },
        }
    }
}

/// An optional list of nodes.
pub open spec fn opt_nodes_field(d: Seq<(Seq<u8>, Bencode)>, k: Seq<u8>) -> Result<
    Option<Seq<(Seq<char>, int)>>,
    Error,
> {
    match lookup(d, k) {
        None => Ok(None),
        Some(Bencode::List(l)) => match nodes_of(l) {
            Ok(x) => Ok(Some(x)),
            Err(e) => Err(e),
        },
        Some(_) => Err(Error::TypeMismatchError),
    }
}

pub proof fn lemma_nodes_prefix_err(l: Seq<Bencode>, k: int, e: Error)
    requires
        0 <= k <= l.len(),
        nodes_of(l.take(k)) == Err::<Seq<(Seq<char>, int)>, Error>(e),
    ensures
        nodes_of(l) == Err::<Seq<(Seq<char>, int)>, Error>(e),
    decreases l.len() - k,
{
    if k < l.len() {
        assert(l.take(k + 1).drop_last() =~= l.take(k));
        lemma_nodes_prefix_err(l, k + 1, e);
    } else {
        assert(l.take(k) =~= l);
    }
}

struct Node {
    host: String,
    port: i64,
}

spec fn nodes_view(ns: Seq<Node>) -> Seq<(Seq<char>, int)> {
    ns.map_values(|n: Node| (n.host@, n.port as int))
}

spec fn opt_nodes(x: Option<Vec<Node>>) -> Option<Seq<(Seq<char>, int)>> {
    match x {
        Some(ns) => Some(nodes_view(ns@)),
        None => None,
    }
}

/// Reads an optional list of nodes.
fn find_nodes(d: &Vec<(Vec<u8>, Value)>, k: &str) -> (r: Result<Option<Vec<Node>>, Error>)
    ensures
        match r {
            Ok(x) => opt_nodes_field(view_entries(d@), k.spec_bytes()) == Ok::<
                Option<Seq<(Seq<char>, int)>>,
                Error,
            >(opt_nodes(x)),
            Err(e) => opt_nodes_field(view_entries(d@), k.spec_bytes()) == Err::<
                Option<Seq<(Seq<char>, int)>>,
                Error,
            >(e),
        },
{
    let l = match find(d, k.as_bytes()) {
        None => {
            return Ok(None);
        },
        Some(Value::List(l)) => l,
        Some(_) => {
            return Err(Error::TypeMismatchError);
        },
    };
    proof {
        lemma_view_list(l@);
    }
    let ghost vl = view_list(l@);
    let mut out: Vec<Node> = Vec::new();
    let mut i: usize = 0;
    assert(vl.take(0) =~= Seq::<Bencode>::empty());
    assert(nodes_view(out@) =~= Seq::<(Seq<char>, int)>::empty());
    while i < l.len()
        invariant
            i <= l@.len(),
            vl == view_list(l@),
            lookup(view_entries(d@), k.spec_bytes()) == Some(Bencode::List(vl)),
            vl.len() == l@.len(),
            forall|t: int| 0 <= t < l@.len() ==> #[trigger] vl[t] == l@[t]@,
            nodes_of(vl.take(i as int)) == Ok::<Seq<(Seq<char>, int)>, Error>(nodes_view(out@)),
        decreases l@.len() - i,
    {
        assert(vl.take(i + 1).drop_last() =~= vl.take(i as int));
        assert(vl.take(i + 1).last() == vl[i as int]);
        let item = &l[i];
        let n = match item {
            Value::List(pair) => {
                if pair.len() != 2 {
                    proof {
                        lemma_view_list(pair@);
                        lemma_nodes_prefix_err(vl, i as int + 1, Error::TypeMismatchError);
                    }
                    return Err(Error::TypeMismatchError);
                }
                proof {
                    lemma_view_list(pair@);
                }
                let host = match get_text(&pair[0]) {
                    Ok(h) => h,
                    Err(e) => {
                        proof {
                            lemma_nodes_prefix_err(vl, i as int + 1, e);
                        }
                        return Err(e);
                    },
                };
                let port = match get_int(&pair[1]) {
                    Ok(p) => p,
                    Err(e) => {
                        proof {
                            lemma_nodes_prefix_err(vl, i as int + 1, e);
                        }
                        return Err(e);
                    },
                };
                Node { host, port }
            },
            _ => {
                proof {
                    lemma_nodes_prefix_err(vl, i as int + 1, Error::TypeMismatchError);
                }
                return Err(Error::TypeMismatchError);
            },
        };
        let ghost old_out = nodes_view(out@);
        out.push(n);
        assert(nodes_view(out@) =~= old_out.push((n.host@, n.port as int)));
        i += 1;
    }
    assert(vl.take(l@.len() as int) =~= vl);
    Ok(Some(out))
}

/// The model of a torrent's metadata.
pub ghost struct TorrentModel {
    pub announce: Option<Seq<char>>,
    pub announce_list: Option<Seq<Seq<char>>>,
    pub comment: Option<Seq<char>>,
    pub created_by: Option<Seq<char>>,
    pub creation_date: Option<int>,
    pub encoding: Option<Seq<char>>,
    pub info: InfoModel,
    pub nodes: Option<Seq<(Seq<char>, int)>>,
    pub httpseeds: Option<Seq<Seq<char>>>,
}

/// The torrent read from a value: a dictionary whose `info` entry must be there.
pub open spec fn torrent_of(m: Bencode) -> Result<TorrentModel, Error> {
    match m {
        Bencode::Dict(d) => {
            let announce = opt_text_field(d, "announce".spec_bytes());
            let announce_list = opt_texts_field(d, "announce-list".spec_bytes());
            let comment = opt_text_field(d, "comment".spec_bytes());
            let created_by = opt_text_field(d, "created by".spec_bytes());
            let creation_date = opt_int_field(d, "creation date".spec_bytes());
            let encoding = opt_text_field(d, "encoding".spec_bytes());
            let info = match lookup(d, "info".spec_bytes()) {
                None => Err(Error::MissingFieldError),
                Some(x) => info_of(x),
            };
            let nodes = opt_nodes_field(d, "nodes".spec_bytes());
            let httpseeds = opt_texts_field(d, "httpseeds".spec_bytes());
            if announce is Err {
                Err(announce->Err_0)
            } else if announce_list is Err {
                Err(announce_list->Err_0)
            } else if comment is Err {
                Err(comment->Err_0)
            } else if created_by is Err {
                Err(created_by->Err_0)
            } else if creation_date is Err {
                Err(creation_date->Err_0)
            } else if encoding is Err {
                Err(encoding->Err_0)
            } else if info is Err {
                Err(info->Err_0)
            } else if nodes is Err {
                Err(nodes->Err_0)
            } else if httpseeds is Err {
                Err(httpseeds->Err_0)
            } else {
                Ok(
                    TorrentModel {
                        announce: announce->Ok_0,
                        announce_list: announce_list->Ok_0,
                        comment: comment->Ok_0,
                        created_by: created_by->Ok_0,
                        creation_date: creation_date->Ok_0,
                        encoding: encoding->Ok_0,
                        info: info->Ok_0,
                        nodes: nodes->Ok_0,
                        httpseeds: httpseeds->Ok_0,
                    },
                )
            }
        },
        _ => Err(Error::TypeMismatchError),
    }
}

/// The metadata of a torrent.
pub struct Torrent {
    announce: Option<String>,
    announce_list: Option<Vec<String>>,
    comment: Option<String>,
    created_by: Option<String>,
    creation_date: Option<i64>,
    encoding: Option<String>,
    info: Info,
    nodes: Option<Vec<Node>>,
    httpseeds: Option<Vec<String>>,
}

impl View for Torrent {
    type V = TorrentModel;

    closed spec fn view(&self) -> TorrentModel {
        TorrentModel {
            announce: opt_text(self.announce),
            announce_list: opt_texts(self.announce_list),
            comment: opt_text(self.comment),
            created_by: opt_text(self.created_by),
            creation_date: opt_int(self.creation_date),
            encoding: opt_text(self.encoding),
            info: self.info@,
            nodes: opt_nodes(self.nodes),
            httpseeds: opt_texts(self.httpseeds),
        }
    }
}

impl Torrent {
    /// Reads a torrent from a decoded value.
    pub fn from_value(v: &Value) -> (r: Result<Torrent, Error>)
        ensures
            match r {
                Ok(t) => torrent_of(v@) == Ok::<TorrentModel, Error>(t@),
                Err(e) => torrent_of(v@) == Err::<TorrentModel, Error>(e),
            },
    {
        match v {
            Value::Dict(d) => {
                let announce = match find_text(d, "announce") {
                    Ok(x) => x,
                    Err(e) => {
                        return Err(e);
                    },
                };
                let announce_list = match find_texts(d, "announce-list") {
                    Ok(x) => x,
                    Err(e) => {
                        return Err(e);
                    },
                };
                let comment = match find_text(d, "comment") {
                    Ok(x) => x,
                    Err(e) => {
                        return Err(e);
                    },
                };
                let created_by = match find_text(d, "created by") {
                    Ok(x) => x,
                    Err(e) => {
                        return Err(e);
                    },
                };
                let creation_date = match find_int(d, "creation date") {
                    Ok(x) => x,
                    Err(e) => {
                        return Err(e);
                    },
                };
                let encoding = match find_text(d, "encoding") {
                    Ok(x) => x,
                    Err(e) => {
                        return Err(e);
                    },
                };
                let info = match find(d, "info".as_bytes()) {
                    None => {
                        return Err(Error::MissingFieldError);
                    },
                    Some(x) => match Info::from_value(x) {
                        Ok(i) => i,
                        Err(e) => {
                            return Err(e);
                        },
                    },
                };
                let nodes = match find_nodes(d, "nodes") {
                    Ok(x) => x,
                    Err(e) => {
                        return Err(e);
                    },
                };
                let httpseeds = match find_texts(d, "httpseeds") {
                    Ok(x) => x,
                    Err(e) => {
                        return Err(e);
                    },
                };
                Ok(
                    Torrent {
                        announce,
                        announce_list,
                        comment,
                        created_by,
                        creation_date,
                        encoding,
                        info,
                        nodes,
                        httpseeds,
                    },
                )
            },
            _ => Err(Error::TypeMismatchError),
        }
    }
}

/// A text as a byte string: its UTF-8 encoding.
pub open spec fn text_b(t: Seq<char>) -> Bencode {
    Bencode::Bytes(encode_utf8(t))
}

/// A list of texts as a list of byte strings.
pub open spec fn texts_b(ts: Seq<Seq<char>>) -> Bencode {
    Bencode::List(ts.map_values(|t: Seq<char>| text_b(t)))
}

/// One dictionary entry when `present`, none otherwise.
pub open spec fn entry_if(present: bool, k: Seq<u8>, v: Bencode) -> Seq<(Seq<u8>, Bencode)> {
    if present {
        seq![(k, v)]
    } else {
        Seq::empty()
    }
}

/// A file entry as a dictionary; absent fields are left out.
pub open spec fn file_b(f: FileModel) -> Bencode {
    Bencode::Dict(
        seq![("length".spec_bytes(), Bencode::Int(f.length))] + entry_if(
            f.md5sum is Some,
            "md5sum".spec_bytes(),
            text_b(f.md5sum->0),
        ) + seq![("path".spec_bytes(), texts_b(f.path))],
    )
}

/// The info dictionary as a value; absent fields are left out.
pub open spec fn info_b(i: InfoModel) -> Bencode {
    Bencode::Dict(
        entry_if(
            i.files is Some,
            "files".spec_bytes(),
            Bencode::List(i.files->0.map_values(|f: FileModel| file_b(f))),
        ) + entry_if(i.length is Some, "length".spec_bytes(), Bencode::Int(i.length->0))
            + entry_if(i.md5sum is Some, "md5sum".spec_bytes(), text_b(i.md5sum->0)) + entry_if(
            i.name is Some,
            "name".spec_bytes(),
            text_b(i.name->0),
        ) + entry_if(i.path is Some, "path".spec_bytes(), texts_b(i.path->0)) + seq![
            ("piece length".spec_bytes(), Bencode::Int(i.piece_length)),
            ("pieces".spec_bytes(), Bencode::Bytes(i.pieces)),
        ] + entry_if(i.private is Some, "private".spec_bytes(), Bencode::Int(i.private->0))
            + entry_if(i.root_hash is Some, "root hash".spec_bytes(), text_b(i.root_hash->0)),
    )
}

/// The info hash: the SHA-1 digest of the canonical encoding of the info dictionary.
pub open spec fn info_digest(i: InfoModel) -> Seq<u8> {
    sha1_of(enc(info_b(i)))
}

/// Copies the bytes of a string slice.
fn str_bytes(s: &str) -> (r: Vec<u8>)
    ensures
        r@ == s.spec_bytes(),
{
    let mut out: Vec<u8> = Vec::new();
    push_bytes(&mut out, s.as_bytes());
    out
}

/// A text as a byte-string value.
fn text_value(s: &String) -> (r: Value)
    ensures
        r@ == text_b(s@),
{
    Value::Bytes(str_bytes(s.as_str()))
}

/// A list of texts as a list value.
fn texts_value(ts: &Vec<String>) -> (r: Value)
    ensures
        r@ == texts_b(ts.deep_view()),
{
    let mut items: Vec<Value> = Vec::new();
    let mut i: usize = 0;
    while i < ts.len()
        invariant
            i <= ts@.len(),
            items@.len() == i,
            forall|j: int| 0 <= j < i ==> (#[trigger] items@[j])@ == text_b(ts@[j]@),
        decreases ts@.len() - i,
    {
        items.push(text_value(&ts[i]));
        i += 1;
    }
    proof {
        lemma_view_list(items@);
        assert(view_list(items@) =~= ts.deep_view().map_values(|t: Seq<char>| text_b(t)));
    }
    Value::List(items)
}

/// Appends an entry to a dictionary under construction.
fn push_entry(d: &mut Vec<(Vec<u8>, Value)>, k: &str, v: Value)
    ensures
        view_entries(final(d)@) == view_entries(old(d)@).push((k.spec_bytes(), v@)),
{
    let key = str_bytes(k);
    d.push((key, v));
    assert(d@.drop_last() =~= old(d)@);
}

impl File {
    /// The file entry as a dictionary value.
    fn to_value(&self) -> (r: Value)
        ensures
            r@ == file_b(self@),
    {
        let mut d: Vec<(Vec<u8>, Value)> = Vec::new();
        push_entry(&mut d, "length", Value::Int(self.length));
        if let Some(m) = &self.md5sum {
            push_entry(&mut d, "md5sum", text_value(m));
        }
        push_entry(&mut d, "path", texts_value(&self.path));
        proof {
            assert(view_entries(Seq::<(Vec<u8>, Value)>::empty()) =~= Seq::<
                (Seq<u8>, Bencode),
            >::empty());
            assert(view_entries(d@) =~= seq![("length".spec_bytes(), Bencode::Int(self@.length))]
                + entry_if(self@.md5sum is Some, "md5sum".spec_bytes(), text_b(self@.md5sum->0))
                + seq![("path".spec_bytes(), texts_b(self@.path))]);
        }
        Value::Dict(d)
    }
}

/// Splits a piece blob into its twenty-byte digests, in order.
pub fn split_pieces(blob: &[u8]) -> (r: Result<Vec<Vec<u8>>, Error>)
    ensures
        r is Ok <==> blob@.len() % 20 == 0,
        r matches Err(e) ==> e == Error::PieceAlignmentError,
        r matches Ok(ds) ==> ds@.len() == blob@.len() / 20 && forall|i: int|
            0 <= i < ds@.len() ==> (#[trigger] ds@[i])@ == blob@.subrange(20 * i, 20 * i + 20),
{
    if blob.len() % 20 != 0 {
        return Err(Error::PieceAlignmentError);
    }
    let len = blob.len();
    let n = len / 20;
    let mut out: Vec<Vec<u8>> = Vec::new();
    while out.len() < n
        invariant
            len == blob@.len(),
            n == blob@.len() / 20,
            blob@.len() == 20 * n,
            out@.len() <= n,
            forall|i: int|
                0 <= i < out@.len() ==> (#[trigger] out@[i])@ == blob@.subrange(20 * i, 20 * i + 20),
        decreases n - out@.len(),
    {
        assert(20 * out@.len() + 20 <= 20 * n) by (nonlinear_arith)
            requires
                out@.len() < n,
        ;
        let pos = 20 * out.len();
        let mut d: Vec<u8> = Vec::new();
        let mut j: usize = pos;
        while j < pos + 20
            invariant
                len == blob@.len(),
                pos + 20 <= blob@.len(),
                pos <= j <= pos + 20,
                d@ == blob@.subrange(pos as int, j as int),
            decreases pos + 20 - j,
        {
            d.push(blob[j]);
            j += 1;
            assert(d@ =~= blob@.subrange(pos as int, j as int));
        }
        let ghost k: int = out@.len() as int;
        out.push(d);
        assert(out@[k]@ == blob@.subrange(20 * k, 20 * k + 20));
    }
    Ok(out)
}

impl Info {
    /// The name of the file, or of the root directory of a multi-file torrent.
    pub fn name(&self) -> (r: &Option<String>)
        ensures
            opt_text(*r) == self@.name,
    {
        &self.name
    }

    /// The number of bytes in each piece.
    pub fn piece_length(&self) -> (r: &i64)
        ensures
            *r as int == self@.piece_length,
    {
        &self.piece_length
    }

    /// The concatenated digests of the pieces.
    pub fn pieces(&self) -> (r: &Vec<u8>)
        ensures
            r@ == self@.pieces,
    {
        &self.pieces
    }

    /// The private flag, where it is set.
    pub fn private(&self) -> (r: &Option<u8>)
        ensures
            opt_flag(*r) == self@.private,
    {
        &self.private
    }

    /// The digests of the pieces, twenty bytes each, in order.
    pub fn piece_digests(&self) -> (r: Result<Vec<Vec<u8>>, Error>)
        ensures
            r is Ok <==> self@.pieces.len() % 20 == 0,
            r matches Err(e) ==> e == Error::PieceAlignmentError,
            r matches Ok(ds) ==> ds@.len() == self@.pieces.len() / 20 && forall|i: int|
                0 <= i < ds@.len() ==> (#[trigger] ds@[i])@ == self@.pieces.subrange(
                    20 * i,
                    20 * i + 20,
                ),
    {
        split_pieces(self.pieces.as_slice())
    }

    /// The info dictionary as a value; absent fields are left out.
    #[verifier::rlimit(60)]
    pub fn to_value(&self) -> (r: Value)
        ensures
            r@ == info_b(self@),
    {
        let mut d: Vec<(Vec<u8>, Value)> = Vec::new();
        let ghost e0 = view_entries(d@);
        assert(e0 =~= Seq::<(Seq<u8>, Bencode)>::empty());
        if let Some(fs) = &self.files {
            let mut items: Vec<Value> = Vec::new();
            let mut i: usize = 0;
            while i < fs.len()
                invariant
                    i <= fs@.len(),
                    items@.len() == i,
                    forall|j: int| 0 <= j < i ==> (#[trigger] items@[j])@ == file_b(fs@[j]@),
                decreases fs@.len() - i,
            {
                items.push(fs[i].to_value());
                i += 1;
            }
            proof {
                lemma_view_list(items@);
                assert(view_list(items@) =~= files_view(fs@).map_values(
                    |f: FileModel| file_b(f),
                ));
            }
            push_entry(&mut d, "files", Value::List(items));
        }
        let ghost e1 = view_entries(d@);
        if let Some(n) = self.length {
            push_entry(&mut d, "length", Value::Int(n));
        }
        let ghost e2 = view_entries(d@);
        if let Some(m) = &self.md5sum {
            push_entry(&mut d, "md5sum", text_value(m));
        }
        let ghost e3 = view_entries(d@);
        if let Some(m) = &self.name {
            push_entry(&mut d, "name", text_value(m));
        }
        let ghost e4 = view_entries(d@);
        if let Some(p) = &self.path {
            push_entry(&mut d, "path", texts_value(p));
        }
        let ghost e5 = view_entries(d@);
        push_entry(&mut d, "piece length", Value::Int(self.piece_length));
        push_entry(&mut d, "pieces", Value::Bytes(self.pieces.clone()));
        let ghost e6 = view_entries(d@);
        if let Some(p) = self.private {
            push_entry(&mut d, "private", Value::Int(p as i64));
        }
        let ghost e7 = view_entries(d@);
        if let Some(m) = &self.root_hash {
            push_entry(&mut d, "root hash", text_value(m));
        }
        proof {
            let i = self@;
            assert(e1 =~= entry_if(
                i.files is Some,
                "files".spec_bytes(),
                Bencode::List(i.files->0.map_values(|f: FileModel| file_b(f))),
            ));
            assert(e2 =~= e1 + entry_if(
                i.length is Some,
                "length".spec_bytes(),
                Bencode::Int(i.length->0),
            ));
            assert(e3 =~= e2 + entry_if(i.md5sum is Some, "md5sum".spec_bytes(), text_b(i.md5sum->0)));
            assert(e4 =~= e3 + entry_if(i.name is Some, "name".spec_bytes(), text_b(i.name->0)));
            assert(e5 =~= e4 + entry_if(i.path is Some, "path".spec_bytes(), texts_b(i.path->0)));
            assert(e6 =~= e5 + seq![
                ("piece length".spec_bytes(), Bencode::Int(i.piece_length)),
                ("pieces".spec_bytes(), Bencode::Bytes(i.pieces)),
            ]);
            assert(e7 =~= e6 + entry_if(
                i.private is Some,
                "private".spec_bytes(),
                Bencode::Int(i.private->0),
            ));
            assert(view_entries(d@) =~= e7 + entry_if(
                i.root_hash is Some,
                "root hash".spec_bytes(),
                text_b(i.root_hash->0),
            ));
        }
        Value::Dict(d)
    }
}

/// The number of files: as many as are listed, or one for a single-file torrent.
pub open spec fn num_files_of(i: InfoModel) -> int {
    match i.files {
        Some(fs) => fs.len() as int,
        None => 1,
    }
}

/// The total size: the sum of the file lengths, or the single declared length.
pub open spec fn total_size_of(i: InfoModel) -> int {
    match i.files {
        Some(fs) => sum_lengths(fs),
        None => match i.length {
            Some(n) => n,
            None => 0,
        },
    }
}

impl Torrent {
    /// Reads a torrent from the bytes of a `.torrent` file.
    pub fn from_buf(buf: &[u8]) -> (r: Result<Torrent, Error>)
        ensures
            !(exists|m: Bencode| decodes_to(buf@, m)) ==> r == Err::<Torrent, Error>(
                Error::StructuralError,
            ),
            forall|m: Bencode|
                decodes_to(buf@, m) ==> match r {
                    Ok(t) => torrent_of(m) == Ok::<TorrentModel, Error>(t@),
                    Err(e) => torrent_of(m) == Err::<TorrentModel, Error>(e),
                },
    {
        match decode(buf) {
            Ok(v) => {
                proof {
                    assert forall|m: Bencode| decodes_to(buf@, m) implies m == v@ by {
                        lemma_decodes_to_unique(buf@, m, v@);
                    }
                }
                Torrent::from_value(&v)
            },
            Err(e) => Err(e),
        }
    }

    /// The files of a multi-file torrent; `None` for a single-file one.
    pub fn files(&self) -> (r: &Option<Vec<File>>)
        ensures
            opt_files(*r) == self@.info.files,
    {
        &self.info.files
    }

    /// The number of files in the torrent.
    pub fn num_files(&self) -> (r: usize)
        ensures
            r as int == num_files_of(self@.info),
    {
        match &self.info.files {
            Some(f) => f.len(),
            None => 1,
        }
    }

    /// The total size of the torrent's content in bytes.
    pub fn total_size(&self) -> (r: i64)
        ensures
            r as int == total_size_of(self@.info),
    {
        proof {
            use_type_invariant(&self.info);
        }
        match &self.info.files {
            None => match self.info.length {
                Some(n) => n,
                None => 0,
            },
            Some(fs) => {
                let r = sum_file_lengths(fs);
                match r {
                    Ok(n) => n,
                    Err(_) => 0,
                }
            },
        }
    }

    /// The info hash that identifies the torrent's swarm.
    pub fn info_hash(&self) -> (r: Result<Vec<u8>, Error>)
        ensures
            r matches Ok(h) && h@ == info_digest(self@.info) && h@.len() == 20,
    {
        let v = self.info.to_value();
        let bytes = encode(&v);
        Ok(sha1_digest(bytes.as_slice()))
    }

    /// The info dictionary.
    pub fn info(&self) -> (r: &Info)
        ensures
            r@ == self@.info,
    {
        &self.info
    }

    /// The free-text comment.
    pub fn comment(&self) -> (r: &Option<String>)
        ensures
            opt_text(*r) == self@.comment,
    {
        &self.comment
    }

    /// The announce URL.
    pub fn announce(&self) -> (r: &Option<String>)
        ensures
            opt_text(*r) == self@.announce,
    {
        &self.announce
    }

    /// The fallback announce URLs.
    pub fn announce_list(&self) -> (r: &Option<Vec<String>>)
        ensures
            opt_texts(*r) == self@.announce_list,
    {
        &self.announce_list
    }

    /// The tool that created the torrent.
    pub fn created_by(&self) -> (r: &Option<String>)
        ensures
            opt_text(*r) == self@.created_by,
    {
        &self.created_by
    }

    /// The creation time, in seconds since the epoch.
    pub fn creation_date(&self) -> (r: &Option<i64>)
        ensures
            opt_int(*r) == self@.creation_date,
    {
        &self.creation_date
    }

    /// The text encoding hint.
    pub fn encoding(&self) -> (r: &Option<String>)
        ensures
            opt_text(*r) == self@.encoding,
    {
        &self.encoding
    }
}

} // verus!
