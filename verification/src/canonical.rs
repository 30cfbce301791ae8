//! The descriptor is canonical: every dictionary in it has its keys in byte
//! order. Also what the `private` key of the info dictionary holds.

use crate::bencode::{
    ascii, bytes_list, canonical, keys_sorted, lemma_keys_sorted_push, with_entry, Bencode,
};
use crate::config::ConfigView;
use crate::order::{
    bytes_lt, lemma_bytes_lt_at, lemma_bytes_lt_prefix, lemma_bytes_lt_transitive,
};
use crate::metainfo::{
    announce_list_value, file_value, files_value, has_announce, has_announce_list,
    info_entries, info_first_entry, info_value, metainfo_entries, metainfo_value,
};
use crate::source::FileView;
use vstd::prelude::*;

verus! {

/// Adding an entry whose key lies above all present keys, and below `next`,
/// keeps the keys sorted and below `next`.
pub proof fn lemma_with_entry_sorted(
    entries: Seq<(Seq<u8>, Bencode)>,
    present: bool,
    k: Seq<u8>,
    v: Bencode,
    next: Seq<u8>,
)
    requires
        keys_sorted(entries),
        forall|i: int| 0 <= i < entries.len() ==> bytes_lt(#[trigger] entries[i].0, k),
        bytes_lt(k, next),
    ensures
        keys_sorted(with_entry(entries, present, k, v)),
        forall|i: int|
            0 <= i < with_entry(entries, present, k, v).len() ==> bytes_lt(
                #[trigger] with_entry(entries, present, k, v)[i].0,
                next,
            ),
{
    let after = with_entry(entries, present, k, v);
    assert forall|i: int| 0 <= i < after.len() implies bytes_lt(#[trigger] after[i].0, next) by {
        if i < entries.len() {
            assert(after[i] == entries[i]);
            lemma_bytes_lt_transitive(entries[i].0, k, next);
        }
    }
    assert forall|i: int, j: int| 0 <= i < j < after.len() implies bytes_lt(
        #[trigger] after[i].0,
        #[trigger] after[j].0,
    ) by {
        assert(after[i] == entries[i]);
        if j < entries.len() {
            assert(after[j] == entries[j]);
        }
    }
}

/// The keys of the descriptor, in byte order.
pub proof fn lemma_top_key_order()
    ensures
        bytes_lt(ascii("announce"@), ascii("announce-list"@)),
        bytes_lt(ascii("announce-list"@), ascii("comment"@)),
        bytes_lt(ascii("comment"@), ascii("created by"@)),
        bytes_lt(ascii("created by"@), ascii("creation date"@)),
        bytes_lt(ascii("creation date"@), ascii("info"@)),
{
    reveal_strlit("announce");
    reveal_strlit("announce-list");
    reveal_strlit("comment");
    reveal_strlit("created by");
    reveal_strlit("creation date");
    reveal_strlit("info");
    lemma_bytes_lt_prefix(ascii("announce"@), ascii("announce-list"@));
    lemma_bytes_lt_at(ascii("announce-list"@), ascii("comment"@), 0);
    lemma_bytes_lt_at(ascii("comment"@), ascii("created by"@), 1);
    lemma_bytes_lt_at(ascii("created by"@), ascii("creation date"@), 5);
    lemma_bytes_lt_at(ascii("creation date"@), ascii("info"@), 0);
}

/// The keys of the info dictionary and of a file's dictionary, in byte order.
pub proof fn lemma_info_key_order()
    ensures
        bytes_lt(ascii("files"@), ascii("name"@)),
        bytes_lt(ascii("length"@), ascii("name"@)),
        bytes_lt(ascii("name"@), ascii("piece length"@)),
        bytes_lt(ascii("piece length"@), ascii("pieces"@)),
        bytes_lt(ascii("pieces"@), ascii("private"@)),
        bytes_lt(ascii("length"@), ascii("path"@)),
{
    reveal_strlit("files");
    reveal_strlit("length");
    reveal_strlit("name");
    reveal_strlit("piece length");
    reveal_strlit("pieces");
    reveal_strlit("private");
    reveal_strlit("path");
    lemma_bytes_lt_at(ascii("files"@), ascii("name"@), 0);
    lemma_bytes_lt_at(ascii("length"@), ascii("name"@), 0);
    lemma_bytes_lt_at(ascii("name"@), ascii("piece length"@), 0);
    lemma_bytes_lt_at(ascii("piece length"@), ascii("pieces"@), 5);
    lemma_bytes_lt_at(ascii("pieces"@), ascii("private"@), 1);
    lemma_bytes_lt_at(ascii("length"@), ascii("path"@), 0);
}

/// A list of byte strings holds no dictionary out of order.
pub proof fn lemma_bytes_list_canonical(items: Seq<Seq<u8>>)
    ensures
        canonical(bytes_list(items)),
{
    let vals = items.map_values(|s: Seq<u8>| Bencode::Bytes(s));
    assert forall|i: int| 0 <= i < vals.len() implies canonical(#[trigger] vals[i]) by {}
}

/// A file's dictionary has its keys in order.
pub proof fn lemma_file_value_canonical(f: FileView)
    ensures
        canonical(file_value(f)),
{
    lemma_info_key_order();
    lemma_bytes_list_canonical(f.path);
    let entries = seq![
        (ascii("length"@), Bencode::Int(f.length as int)),
        (ascii("path"@), bytes_list(f.path)),
    ];
    assert(canonical(entries[0].1));
    assert(canonical(entries[1].1));
    assert(keys_sorted(entries));
}

/// The info dictionary is canonical.
pub proof fn lemma_info_canonical(c: ConfigView, files: Seq<FileView>, pieces: Seq<u8>)
    ensures
        canonical(info_value(c, files, pieces)),
{
    lemma_info_key_order();
    let first = info_first_entry(files);
    let e0 = Seq::<(Seq<u8>, Bencode)>::empty();
    let e1 = with_entry(e0, true, first.0, first.1);
    let e2 = with_entry(e1, true, ascii("name"@), Bencode::Bytes(c.name));
    let e3 = with_entry(e2, true, ascii("piece length"@), Bencode::Int(c.piece_length as int));
    let e4 = with_entry(e3, true, ascii("pieces"@), Bencode::Bytes(pieces));
    let e5 = with_entry(e4, c.private, ascii("private"@), Bencode::Int(1));
    lemma_with_entry_sorted(e0, true, first.0, first.1, ascii("name"@));
    lemma_with_entry_sorted(e1, true, ascii("name"@), Bencode::Bytes(c.name), ascii("piece length"@));
    lemma_with_entry_sorted(
        e2,
        true,
        ascii("piece length"@),
        Bencode::Int(c.piece_length as int),
        ascii("pieces"@),
    );
    lemma_with_entry_sorted(e3, true, ascii("pieces"@), Bencode::Bytes(pieces), ascii("private"@));
    assert(keys_sorted(e4));
    assert(keys_sorted(e5)) by {
        if c.private {
            lemma_keys_sorted_push(e4, ascii("private"@), Bencode::Int(1));
        }
    }
    assert(e4 =~= seq![
        first,
        (ascii("name"@), Bencode::Bytes(c.name)),
        (ascii("piece length"@), Bencode::Int(c.piece_length as int)),
        (ascii("pieces"@), Bencode::Bytes(pieces)),
    ]);
    assert(e5 == info_entries(c, files, pieces));
    assert(canonical(first.1)) by {
        let vals = files.map_values(|f: FileView| file_value(f));
        assert forall|i: int| 0 <= i < vals.len() implies canonical(#[trigger] vals[i]) by {
            lemma_file_value_canonical(files[i]);
        }
        assert(canonical(files_value(files)));
    }
    assert forall|i: int| 0 <= i < e5.len() implies canonical((#[trigger] e5[i]).1) by {
        if i < 4 {
            assert(e5[i] == e4[i]);
        }
    }
}

/// The descriptor is canonical: its own keys are in byte order, and so are
/// those of every dictionary inside it.
pub proof fn lemma_metainfo_canonical(c: ConfigView, files: Seq<FileView>, pieces: Seq<u8>)
    ensures
        canonical(metainfo_value(c, files, pieces)),
{
    lemma_top_key_order();
    lemma_info_canonical(c, files, pieces);
    let v1 = Bencode::Bytes(c.trackers[0][0]);
    let v2 = announce_list_value(c.trackers);
    let v3 = Bencode::Bytes(c.comment.unwrap());
    let v4 = Bencode::Bytes(c.created_by.unwrap());
    let v5 = Bencode::Int(c.creation_date.unwrap());
    let v6 = info_value(c, files, pieces);
    let e0 = Seq::<(Seq<u8>, Bencode)>::empty();
    let e1 = with_entry(e0, has_announce(c), ascii("announce"@), v1);
    let e2 = with_entry(e1, has_announce_list(c), ascii("announce-list"@), v2);
    let e3 = with_entry(e2, c.comment is Some, ascii("comment"@), v3);
    let e4 = with_entry(e3, c.created_by is Some, ascii("created by"@), v4);
    let e5 = with_entry(e4, c.creation_date is Some, ascii("creation date"@), v5);
    let e6 = e5.push((ascii("info"@), v6));
    lemma_with_entry_sorted(e0, has_announce(c), ascii("announce"@), v1, ascii("announce-list"@));
    lemma_with_entry_sorted(e1, has_announce_list(c), ascii("announce-list"@), v2, ascii("comment"@));
    lemma_with_entry_sorted(e2, c.comment is Some, ascii("comment"@), v3, ascii("created by"@));
    lemma_with_entry_sorted(
        e3,
        c.created_by is Some,
        ascii("created by"@),
        v4,
        ascii("creation date"@),
    );
    lemma_with_entry_sorted(e4, c.creation_date is Some, ascii("creation date"@), v5, ascii("info"@));
    lemma_keys_sorted_push(e5, ascii("info"@), v6);
    assert(e6 == metainfo_entries(c, files, pieces));
    assert(canonical(v2)) by {
        let vals = c.trackers.map_values(|t: Seq<Seq<u8>>| bytes_list(t));
        assert forall|i: int| 0 <= i < vals.len() implies canonical(#[trigger] vals[i]) by {
            lemma_bytes_list_canonical(c.trackers[i]);
        }
    }
    assert forall|i: int| 0 <= i < e6.len() implies canonical((#[trigger] e6[i]).1) by {
        let v = e6[i].1;
        assert(v == v1 || v == v2 || v == v3 || v == v4 || v == v5 || v == v6);
    }
}

/// Some entry has the given key.
pub open spec fn has_key(entries: Seq<(Seq<u8>, Bencode)>, key: Seq<u8>) -> bool {
    exists|i: int| 0 <= i < entries.len() && (#[trigger] entries[i]).0 == key
}

/// Some entry has the given key and value.
pub open spec fn has_entry(entries: Seq<(Seq<u8>, Bencode)>, key: Seq<u8>, value: Bencode) -> bool {
    exists|i: int| 0 <= i < entries.len() && #[trigger] entries[i] == (key, value)
}

/// A private torrent has `private` set to 1 in its info dictionary, and
/// nothing else under that key; any other torrent has no such key at all.
pub proof fn lemma_private_flag(c: ConfigView, files: Seq<FileView>, pieces: Seq<u8>)
    ensures
        c.private ==> has_entry(
            info_entries(c, files, pieces),
            ascii("private"@),
            Bencode::Int(1),
        ),
        !c.private ==> !has_key(info_entries(c, files, pieces), ascii("private"@)),
        forall|i: int|
            0 <= i < info_entries(c, files, pieces).len() && (#[trigger] info_entries(
                c,
                files,
                pieces,
            )[i]).0 == ascii("private"@) ==> info_entries(c, files, pieces)[i].1 == Bencode::Int(1),
{
    reveal_strlit("files");
    reveal_strlit("length");
    reveal_strlit("name");
    reveal_strlit("piece length");
    reveal_strlit("pieces");
    reveal_strlit("private");
    let entries = info_entries(c, files, pieces);
    let key = ascii("private"@);
    assert(entries[0].0.len() != key.len());
    assert(entries[1].0.len() != key.len());
    assert(entries[2].0.len() != key.len());
    assert(entries[3].0.len() != key.len());
    if c.private {
        assert(entries[4] == (key, Bencode::Int(1)));
    }
}

} // verus!
