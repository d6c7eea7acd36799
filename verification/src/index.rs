//! The track index: a name-to-path map with the directory prefix it is
//! served from, the scanner for its on-disk format, and its renderer.
//!
//! The format is `{"path":"...","entries":[{"name":"relpath"},...]}`.
//! Reading and writing the file itself happens outside the library;
//! everything here works on the file's bytes.

use vstd::prelude::*;

use crate::ascii::{
    bytes_eq, ends_with, first_at, lemma_first_at, push_all, scan_for, spec_ends_with,
    spec_starts_with, starts_with, subvec,
};
use crate::dict::{spec_insert, spec_lookup, Dict};
use crate::util::{iter_to_json_string, spec_json_array};

verus! {

/// Why index bytes were rejected, or why there was nothing to render.
#[derive(Debug, Clone, Copy, PartialEq, Eq, Structural)]
pub enum IndexError {
    /// A byte outside the format's alphabet, outside any quoted string.
    InvalidChar,
    /// The bytes end without both a path and at least one entry.
    NotAnIndex,
    /// No entry to render: the walked directory held no music files.
    EmptyIndex,
}

/// The name-to-relative-path map and the base path of the music tree.
#[derive(Debug)]
pub struct MusicIndex {
    pub map: Dict,
    pub path: Vec<u8>,
}

impl MusicIndex {
    pub open spec fn wf(&self) -> bool {
        self.map.wf()
    }

    /// The track names as a JSON array of strings.
    pub fn key_json_array(&self) -> (r: Vec<u8>)
        ensures
            r@ == spec_json_array(Seq::new(self.map@.len(), |i: int| self.map@[i].0)),
    {
        let keys = self.map.keys();
        iter_to_json_string(&keys)
    }

    /// The full path of a track: the base path glued to the entry.
    pub fn get(&self, item: &Vec<u8>) -> (r: Option<Vec<u8>>)
        ensures
            match r {
                Some(p) => spec_lookup(self.map@, item@) is Some && p@ == self.path@
                    + spec_lookup(self.map@, item@).unwrap(),
                None => spec_lookup(self.map@, item@) is None,
            },
    {
        match self.map.get(item) {
            Some(v) => {
                let mut out = subvec(&self.path, 0, self.path.len());
                push_all(&mut out, v);
                proof {
                    assert(self.path@.subrange(0, self.path@.len() as int) =~= self.path@);
                }
                Some(out)
            },
            None => None,
        }
    }
}

pub open spec fn lit_path_key() -> Seq<u8> {
    seq![112u8, 97u8, 116u8, 104u8]
}

/// The scanner's running state: whether the next quoted string is a key
/// or a value, whether the cursor is inside the entry array, the last
/// key and value read, and what has been collected.
pub ghost struct IndexState {
    pub read_key: bool,
    pub in_array: bool,
    pub key: Seq<u8>,
    pub value: Seq<u8>,
    pub path: Seq<u8>,
    pub entries: Seq<(Seq<u8>, Seq<u8>)>,
}

pub open spec fn init_index_state() -> IndexState {
    IndexState {
        read_key: false,
        in_array: false,
        key: Seq::empty(),
        value: Seq::empty(),
        path: Seq::empty(),
        entries: Seq::empty(),
    }
}

/// After each step the path is refreshed from a `path` key with a
/// non-empty value.
pub open spec fn index_post_step(st: IndexState) -> IndexState {
    if st.key == lit_path_key() && st.value.len() > 0 {
        IndexState {
            read_key: st.read_key,
            in_array: st.in_array,
            key: st.key,
            value: st.value,
            path: st.value,
            entries: st.entries,
        }
    } else {
        st
    }
}

/// A quoted string starting at `rest[0] == '"'`: the bytes up to the
/// closing quote and how many bytes were consumed.  Without a closing
/// quote the rest is taken, short of its final byte.
pub open spec fn quote_scan(rest: Seq<u8>) -> (Seq<u8>, int) {
    let e = first_at(rest, 34, 1);
    if e == rest.len() {
        if rest.len() >= 2 {
            (rest.subrange(1, rest.len() - 1), rest.len() as int)
        } else {
            (Seq::empty(), rest.len() as int)
        }
    } else {
        (rest.subrange(1, e), e + 1)
    }
}

/// The scanner over the remaining bytes: structural bytes steer the
/// state, quoted strings alternate between key and value, a value met
/// inside the array files an entry, and any other byte is rejected.
/// At the end both a path and at least one entry must have been seen.
pub open spec fn load_run(rest: Seq<u8>, st: IndexState) -> Result<
    (Seq<u8>, Seq<(Seq<u8>, Seq<u8>)>),
    IndexError,
>
    decreases rest.len(),
    via load_run_dec
{
    if rest.len() == 0 {
        if st.path.len() == 0 || st.entries.len() == 0 {
            Err(IndexError::NotAnIndex)
        } else {
            Ok((st.path, st.entries))
        }
    } else {
        let b = rest[0];
        if b == 123 || b == 125 || b == 58 || b == 44 || b == 32 || b == 13 || b == 10 {
            load_run(rest.drop_first(), index_post_step(st))
        } else if b == 91 {
            load_run(
                rest.drop_first(),
                index_post_step(
                    IndexState {
                        read_key: false,
                        in_array: true,
                        key: st.key,
                        value: st.value,
                        path: st.path,
                        entries: st.entries,
                    },
                ),
            )
        } else if b == 93 {
            load_run(
                rest.drop_first(),
                index_post_step(
                    IndexState {
                        read_key: st.read_key,
                        in_array: false,
                        key: st.key,
                        value: st.value,
                        path: st.path,
                        entries: st.entries,
                    },
                ),
            )
        } else if b == 34 {
            let (quoted, consumed) = quote_scan(rest);
            let st2 = if !st.read_key {
                IndexState {
                    read_key: true,
                    in_array: st.in_array,
                    key: quoted,
                    value: st.value,
                    path: st.path,
                    entries: st.entries,
                }
            } else {
                IndexState {
                    read_key: false,
                    in_array: st.in_array,
                    key: st.key,
                    value: quoted,
                    path: st.path,
                    entries: if st.in_array {
                        spec_insert(st.entries, st.key, quoted)
                    } else {
                        st.entries
                    },
                }
            };
            load_run(rest.skip(consumed), index_post_step(st2))
        } else {
            Err(IndexError::InvalidChar)
        }
    }
}

#[via_fn]
proof fn load_run_dec(rest: Seq<u8>, st: IndexState) {
    if rest.len() > 0 && rest[0] == 34 {
        lemma_first_at(rest, 34, 1);
    }
}

/// What the whole scanner yields on the file's bytes.
pub open spec fn load_index_spec(bytes: Seq<u8>) -> Result<
    (Seq<u8>, Seq<(Seq<u8>, Seq<u8>)>),
    IndexError,
> {
    load_run(bytes, init_index_state())
}

/// Scan index-file bytes into a `MusicIndex`.
pub fn load_index(bytes: &Vec<u8>) -> (r: Result<MusicIndex, IndexError>)
    ensures
        match r {
            Ok(ix) => load_index_spec(bytes@) == Ok::<_, IndexError>((ix.path@, ix.map@))
                && ix.wf(),
            Err(e) => load_index_spec(bytes@) == Err::<(Seq<u8>, Seq<(Seq<u8>, Seq<u8>)>), _>(e),
        },
{
    let mut read_key = false;
    let mut in_array = false;
    let mut key: Vec<u8> = Vec::new();
    let mut value: Vec<u8> = Vec::new();
    let mut path: Vec<u8> = Vec::new();
    let mut entries = Dict::new();
    let path_lit = vec![112u8, 97u8, 116u8, 104u8];
    let mut i: usize = 0;
    let blen = bytes.len();
    proof {
        assert(path_lit@ =~= lit_path_key());
        assert(bytes@.skip(0) =~= bytes@);
        assert(key@ =~= Seq::<u8>::empty());
        assert(value@ =~= Seq::<u8>::empty());
        assert(path@ =~= Seq::<u8>::empty());
    }
    while i < bytes.len()
        invariant
            i <= bytes@.len(),
            bytes@.len() <= usize::MAX,
            entries.wf(),
            path_lit@ == lit_path_key(),
            load_index_spec(bytes@) == load_run(
                bytes@.skip(i as int),
                IndexState {
                    read_key: read_key,
                    in_array: in_array,
                    key: key@,
                    value: value@,
                    path: path@,
                    entries: entries@,
                },
            ),
        decreases bytes.len() - i,
    {
        let ghost st = IndexState {
            read_key: read_key,
            in_array: in_array,
            key: key@,
            value: value@,
            path: path@,
            entries: entries@,
        };
        let b = bytes[i];
        proof {
            assert(bytes@.skip(i as int)[0] == b);
            assert(bytes@.skip(i as int).drop_first() =~= bytes@.skip(i + 1));
        }
        let mut next: usize = i + 1;
        if b == 123 || b == 125 || b == 58 || b == 44 || b == 32 || b == 13 || b == 10 {
            // structural byte: nothing changes
        } else if b == 91 {
            in_array = true;
            read_key = false;
        } else if b == 93 {
            in_array = false;
        } else if b == 34 {
            proof {
                lemma_first_at(bytes@, 34, i + 1);
                lemma_first_at(bytes@.skip(i as int), 34, 1);
                let rest = bytes@.skip(i as int);
                let ea = first_at(bytes@, 34, i + 1);
                let er = first_at(rest, 34, 1);
                assert(forall|j: int| 0 <= j < rest.len() ==> rest[j] == bytes@[i + j]);
                if er + i < ea {
                    assert(rest[er] == 34);
                    assert(bytes@[i + er] != 34);
                    assert(false);
                }
                if er + i > ea {
                    if ea < bytes@.len() {
                        assert(bytes@[ea] == 34);
                        assert(rest[ea - i] != 34);
                        assert(false);
                    } else {
                        assert(er > rest.len());
                        assert(false);
                    }
                }
                assert(er == ea - i);
            }
            let ea = scan_for(bytes, 34, i + 1);
            let quoted: Vec<u8> = if ea == bytes.len() {
                next = bytes.len();
                if bytes.len() - i >= 2 {
                    subvec(bytes, i + 1, bytes.len() - 1)
                } else {
                    Vec::new()
                }
            } else {
                next = ea + 1;
                subvec(bytes, i + 1, ea)
            };
            proof {
                let rest = bytes@.skip(i as int);
                let (q, c) = quote_scan(rest);
                if first_at(bytes@, 34, i + 1) == bytes@.len() {
                    if rest.len() >= 2 {
                        assert(rest.subrange(1, rest.len() - 1) =~= bytes@.subrange(
                            i + 1,
                            bytes@.len() - 1,
                        ));
                    }
                    assert(quoted@ =~= q);
                } else {
                    assert(rest.subrange(1, first_at(rest, 34, 1)) =~= bytes@.subrange(
                        i + 1,
                        first_at(bytes@, 34, i + 1),
                    ));
                    assert(quoted@ =~= q);
                }
                assert(next as int == i + c);
            }
            if !read_key {
                key = quoted;
                read_key = true;
            } else {
                if in_array {
                    let k2 = subvec(&key, 0, key.len());
                    let q2 = subvec(&quoted, 0, quoted.len());
                    proof {
                        assert(k2@ =~= key@);
                        assert(q2@ =~= quoted@);
                    }
                    entries.insert(k2, q2);
                }
                value = quoted;
                read_key = false;
            }
        } else {
            return Err(IndexError::InvalidChar);
        }
        if bytes_eq(&key, &path_lit) && value.len() > 0 {
            path = subvec(&value, 0, value.len());
            proof {
                assert(path@ =~= value@);
            }
        }
        proof {
            let st3 = IndexState {
                read_key: read_key,
                in_array: in_array,
                key: key@,
                value: value@,
                path: path@,
                entries: entries@,
            };
            assert(bytes@.skip(i as int).skip(next - i) =~= bytes@.skip(next as int));
            assert(load_run(bytes@.skip(i as int), st) == load_run(
                bytes@.skip(next as int),
                st3,
            ));
        }
        i = next;
    }
    proof {
        assert(bytes@.skip(bytes@.len() as int) =~= Seq::<u8>::empty());
    }
    if path.len() == 0 || entries.len() == 0 {
        return Err(IndexError::NotAnIndex);
    }
    Ok(MusicIndex { map: entries, path })
}

pub open spec fn lit_index_head() -> Seq<u8> {
    seq![123u8, 34u8, 112u8, 97u8, 116u8, 104u8, 34u8, 58u8, 34u8]
}

pub open spec fn lit_index_mid() -> Seq<u8> {
    seq![34u8, 44u8, 34u8, 101u8, 110u8, 116u8, 114u8, 105u8, 101u8, 115u8, 34u8, 58u8, 91u8]
}

pub open spec fn lit_index_tail() -> Seq<u8> {
    seq![93u8, 125u8]
}

/// One entry on disk: `{"name":"relpath"}`.
pub open spec fn render_entry(e: (Seq<u8>, Seq<u8>)) -> Seq<u8> {
    seq![123u8, 34u8] + e.0 + seq![34u8, 58u8, 34u8] + e.1 + seq![34u8, 125u8]
}

/// The entries joined by commas.
pub open spec fn render_entries(es: Seq<(Seq<u8>, Seq<u8>)>) -> Seq<u8>
    decreases es.len(),
{
    if es.len() == 0 {
        Seq::empty()
    } else if es.len() == 1 {
        render_entry(es[0])
    } else {
        render_entry(es[0]) + seq![44u8] + render_entries(es.drop_first())
    }
}

/// The whole index file.
pub open spec fn spec_render_index(path: Seq<u8>, es: Seq<(Seq<u8>, Seq<u8>)>) -> Seq<u8> {
    lit_index_head() + path + lit_index_mid() + render_entries(es) + lit_index_tail()
}

proof fn lemma_render_entries_snoc(es: Seq<(Seq<u8>, Seq<u8>)>, x: (Seq<u8>, Seq<u8>))
    requires
        es.len() >= 1,
    ensures
        render_entries(es.push(x)) == render_entries(es) + seq![44u8] + render_entry(x),
    decreases es.len(),
{
    if es.len() == 1 {
        assert(es.push(x).drop_first() =~= seq![x]);
        assert(render_entries(seq![x]) == render_entry(x));
        assert(render_entries(es.push(x)) =~= render_entries(es) + seq![44u8] + render_entry(x));
    } else {
        lemma_render_entries_snoc(es.drop_first(), x);
        assert(es.push(x).drop_first() =~= es.drop_first().push(x));
        assert(render_entries(es.push(x)) =~= render_entries(es) + seq![44u8] + render_entry(x));
    }
}

/// Render an index to its file bytes.  The base path must not end with
/// a slash of either kind.  An empty index has nothing to serve and is
/// an error.
pub fn make_index(index: &Dict, path: &Vec<u8>) -> (r: Result<Vec<u8>, IndexError>)
    requires
        path@.len() > 0,
        path@.last() != 47,
        path@.last() != 92,
    ensures
        match r {
            Ok(b) => index@.len() > 0 && b@ == spec_render_index(path@, index@),
            Err(e) => index@.len() == 0 && e == IndexError::EmptyIndex,
        },
{
    if index.is_empty() {
        return Err(IndexError::EmptyIndex);
    }
    let mut out: Vec<u8> = Vec::new();
    let head = vec![123u8, 34u8, 112u8, 97u8, 116u8, 104u8, 34u8, 58u8, 34u8];
    let mid = vec![
        34u8, 44u8, 34u8, 101u8, 110u8, 116u8, 114u8, 105u8, 101u8, 115u8, 34u8, 58u8, 91u8,
    ];
    proof {
        assert(head@ =~= lit_index_head());
        assert(mid@ =~= lit_index_mid());
    }
    push_all(&mut out, &head);
    push_all(&mut out, path);
    push_all(&mut out, &mid);
    let ghost prefix = out@;
    proof {
        assert(prefix =~= lit_index_head() + path@ + lit_index_mid());
    }
    let n = index.len();
    let mut i: usize = 0;
    while i < n
        invariant
            i <= n,
            n == index@.len(),
            out@ == prefix + render_entries(index@.take(i as int)),
            prefix == lit_index_head() + path@ + lit_index_mid(),
        decreases n - i,
    {
        let ghost before = out@;
        if i > 0 {
            out.push(44);
        }
        out.push(123);
        out.push(34);
        let p: &(Vec<u8>, Vec<u8>) = index.pair_at(i);
        push_all(&mut out, &p.0);
        out.push(34);
        out.push(58);
        out.push(34);
        push_all(&mut out, &p.1);
        out.push(34);
        out.push(125);
        proof {
            if i == 0 {
                assert(index@.take(1) =~= seq![index@[0]]);
                assert(render_entries(seq![index@[0]]) == render_entry(index@[0]));
                assert(out@ =~= prefix + render_entries(index@.take(1)));
            } else {
                lemma_render_entries_snoc(index@.take(i as int), index@[i as int]);
                assert(index@.take(i as int).push(index@[i as int]) =~= index@.take(i + 1));
                assert(out@ =~= prefix + render_entries(index@.take(i + 1)));
            }
        }
        i = i + 1;
    }
    proof {
        assert(index@.take(index@.len() as int) =~= index@);
    }
    out.push(93);
    out.push(125);
    proof {
        assert(out@ =~= spec_render_index(path@, index@));
    }
    Ok(out)
}

pub open spec fn lit_mp3() -> Seq<u8> {
    seq![46u8, 109u8, 112u8, 51u8]
}

/// All trailing repetitions of `pat` removed.
pub open spec fn spec_trim_end_matches(s: Seq<u8>, pat: Seq<u8>) -> Seq<u8>
    decreases s.len(),
{
    if pat.len() > 0 && spec_ends_with(s, pat) {
        spec_trim_end_matches(s.take(s.len() - pat.len()), pat)
    } else {
        s
    }
}

/// All leading repetitions of `pre` removed.
pub open spec fn spec_strip_prefix_rep(s: Seq<u8>, pre: Seq<u8>) -> Seq<u8>
    decreases s.len(),
{
    if pre.len() > 0 && spec_starts_with(s, pre) {
        spec_strip_prefix_rep(s.skip(pre.len() as int), pre)
    } else {
        s
    }
}

/// The index entry a walked file yields: only `.mp3` files count; the
/// name is the file name without its `.mp3` endings, the stored path is
/// the file path past the walk's root, short of any leading repetition
/// of the directory currently walked.
pub fn index_entry_of(
    filename: &Vec<u8>,
    filepath: &Vec<u8>,
    base_len: usize,
    dir_path: &Vec<u8>,
) -> (r: Option<(Vec<u8>, Vec<u8>)>)
    requires
        base_len <= filepath@.len(),
    ensures
        match r {
            Some(e) => spec_ends_with(filepath@, lit_mp3()) && e.0@ == spec_trim_end_matches(
                filename@,
                lit_mp3(),
            ) && e.1@ == spec_strip_prefix_rep(filepath@.skip(base_len as int), dir_path@),
            None => !spec_ends_with(filepath@, lit_mp3()),
        },
{
    let mp3 = vec![46u8, 109u8, 112u8, 51u8];
    proof {
        assert(mp3@ =~= lit_mp3());
    }
    if !ends_with(filepath, &mp3) {
        return None;
    }
    let mut name = subvec(filename, 0, filename.len());
    proof {
        assert(name@ =~= filename@);
    }
    while ends_with(&name, &mp3) && name.len() >= 4
        invariant
            mp3@ == lit_mp3(),
            spec_trim_end_matches(filename@, lit_mp3()) == spec_trim_end_matches(
                name@,
                lit_mp3(),
            ),
        decreases name.len(),
    {
        name.truncate(name.len() - 4);
    }
    let mut rel = subvec(filepath, base_len, filepath.len());
    proof {
        assert(rel@ =~= filepath@.skip(base_len as int));
    }
    while dir_path.len() > 0 && starts_with(&rel, dir_path)
        invariant
            spec_strip_prefix_rep(filepath@.skip(base_len as int), dir_path@)
                == spec_strip_prefix_rep(rel@, dir_path@),
        decreases rel.len(),
    {
        let r2 = subvec(&rel, dir_path.len(), rel.len());
        proof {
            assert(r2@ =~= rel@.skip(dir_path@.len() as int));
        }
        rel = r2;
    }
    Some((name, rel))
}

} // verus!
