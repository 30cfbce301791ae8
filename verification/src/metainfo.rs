//! The metainfo descriptor: what it holds, as a bencode value, and the
//! assembler that writes its canonical encoding.

use crate::bencode::{
    ascii, bytes_list, encode, encode_entries, encode_items, lemma_dict_written,
    lemma_encode_items_push, lemma_entry_written, strings, with_entry, write_bytes,
    write_bytes_list, write_int, write_text, write_uint, Bencode, CLOSE, DICT_OPEN, LIST_OPEN,
};
use crate::config::{tiers, BuildConfig, ConfigView};
use crate::source::{file_views, FileEntry, FileView};
use vstd::prelude::*;
use vstd::string::is_ascii;

verus! {

/// The source is one plain file: a single entry with an empty path.
pub open spec fn single_file(files: Seq<FileView>) -> bool {
    files.len() == 1 && files[0].path.len() == 0
}

/// One file of a multi-file source: its `length` and its `path`.
pub open spec fn file_value(f: FileView) -> Bencode {
    Bencode::Dict(
        seq![
            (ascii("length"@), Bencode::Int(f.length as int)),
            (ascii("path"@), bytes_list(f.path)),
        ],
    )
}

/// The `files` list of a multi-file source.
pub open spec fn files_value(files: Seq<FileView>) -> Bencode {
    Bencode::List(files.map_values(|f: FileView| file_value(f)))
}

/// The `announce-list`: one list of URLs for each tracker group.
pub open spec fn announce_list_value(trackers: Seq<Seq<Seq<u8>>>) -> Bencode {
    Bencode::List(trackers.map_values(|t: Seq<Seq<u8>>| bytes_list(t)))
}

/// There is a main tracker: a first URL in a first group.
pub open spec fn has_announce(c: ConfigView) -> bool {
    c.trackers.len() > 0 && c.trackers[0].len() > 0
}

/// The tracker groups are written out as an `announce-list`: there are
/// groups, and they are more than one group of one URL.
pub open spec fn has_announce_list(c: ConfigView) -> bool {
    c.trackers.len() > 0 && !(c.trackers.len() == 1 && c.trackers[0].len() == 1)
}

/// What the info dictionary says of the files: the `length` of a single
/// file, or the `files` of a multi-file source.
pub open spec fn info_first_entry(files: Seq<FileView>) -> (Seq<u8>, Bencode) {
    if single_file(files) {
        (ascii("length"@), Bencode::Int(files[0].length as int))
    } else {
        (ascii("files"@), files_value(files))
    }
}

/// The entries of the info dictionary, in the order of their keys: `files`
/// or `length`, then `name`, `piece length`, `pieces`, and `private` with
/// the value 1 where the torrent is private.
pub open spec fn info_entries(c: ConfigView, files: Seq<FileView>, pieces: Seq<u8>) -> Seq<
    (Seq<u8>, Bencode),
> {
    let fixed = seq![
        info_first_entry(files),
        (ascii("name"@), Bencode::Bytes(c.name)),
        (ascii("piece length"@), Bencode::Int(c.piece_length as int)),
        (ascii("pieces"@), Bencode::Bytes(pieces)),
    ];
    with_entry(fixed, c.private, ascii("private"@), Bencode::Int(1))
}

/// The info dictionary.
pub open spec fn info_value(c: ConfigView, files: Seq<FileView>, pieces: Seq<u8>) -> Bencode {
    Bencode::Dict(info_entries(c, files, pieces))
}

/// The entries of the descriptor, in the order of their keys: `announce`,
/// `announce-list`, `comment`, `created by`, `creation date`, each where it
/// is present, then `info`.
pub open spec fn metainfo_entries(c: ConfigView, files: Seq<FileView>, pieces: Seq<u8>) -> Seq<
    (Seq<u8>, Bencode),
> {
    let e0 = Seq::<(Seq<u8>, Bencode)>::empty();
    let e1 = with_entry(e0, has_announce(c), ascii("announce"@), Bencode::Bytes(c.trackers[0][0]));
    let e2 = with_entry(
        e1,
        has_announce_list(c),
        ascii("announce-list"@),
        announce_list_value(c.trackers),
    );
    let e3 = with_entry(
        e2,
        c.comment is Some,
        ascii("comment"@),
        Bencode::Bytes(c.comment.unwrap()),
    );
    let e4 = with_entry(
        e3,
        c.created_by is Some,
        ascii("created by"@),
        Bencode::Bytes(c.created_by.unwrap()),
    );
    let e5 = with_entry(
        e4,
        c.creation_date is Some,
        ascii("creation date"@),
        Bencode::Int(c.creation_date.unwrap()),
    );
    e5.push((ascii("info"@), info_value(c, files, pieces)))
}

/// The descriptor of a build: its configuration, its files, and the digests
/// of its pieces in index order, as one byte string.
pub open spec fn metainfo_value(c: ConfigView, files: Seq<FileView>, pieces: Seq<u8>) -> Bencode {
    Bencode::Dict(metainfo_entries(c, files, pieces))
}

proof fn lemma_keys_are_ascii()
    ensures
        is_ascii("announce"),
        is_ascii("announce-list"),
        is_ascii("comment"),
        is_ascii("created by"),
        is_ascii("creation date"),
        is_ascii("info"),
        is_ascii("files"),
        is_ascii("length"),
        is_ascii("name"),
        is_ascii("path"),
        is_ascii("piece length"),
        is_ascii("pieces"),
        is_ascii("private"),
{
    reveal_strlit("announce");
    reveal_strlit("announce-list");
    reveal_strlit("comment");
    reveal_strlit("created by");
    reveal_strlit("creation date");
    reveal_strlit("info");
    reveal_strlit("files");
    reveal_strlit("length");
    reveal_strlit("name");
    reveal_strlit("path");
    reveal_strlit("piece length");
    reveal_strlit("pieces");
    reveal_strlit("private");
}

fn write_file(out: &mut Vec<u8>, f: &FileEntry)
    ensures
        final(out)@ == old(out)@ + encode(file_value(f@)),
{
    let ghost base: Seq<u8> = old(out)@ + seq![DICT_OPEN];
    let ghost e0: Seq<(Seq<u8>, Bencode)> = Seq::empty();
    let ghost v1: Bencode = Bencode::Int(f@.length as int);
    let ghost v2: Bencode = bytes_list(f@.path);
    proof {
        lemma_keys_are_ascii();
    }
    out.push(DICT_OPEN);
    let ghost s0: Seq<u8> = out@;
    assert(s0 =~= base + encode_entries(e0));
    write_text(out, "length");
    write_uint(out, f.length);
    let ghost s1: Seq<u8> = out@;
    let ghost e1 = with_entry(e0, true, ascii("length"@), v1);
    proof {
        lemma_entry_written(base, e0, true, ascii("length"@), v1, s0, s1);
    }
    write_text(out, "path");
    write_bytes_list(out, &f.path);
    let ghost s2: Seq<u8> = out@;
    let ghost e2 = with_entry(e1, true, ascii("path"@), v2);
    proof {
        lemma_entry_written(base, e1, true, ascii("path"@), v2, s1, s2);
    }
    out.push(CLOSE);
    proof {
        assert(e2 =~= seq![(ascii("length"@), v1), (ascii("path"@), v2)]);
        lemma_dict_written(old(out)@, e2, s2, out@);
    }
}

fn write_files(out: &mut Vec<u8>, files: &Vec<FileEntry>)
    ensures
        final(out)@ == old(out)@ + encode(files_value(file_views(files@))),
{
    let ghost vals: Seq<Bencode> = file_views(files@).map_values(|f: FileView| file_value(f));
    out.push(LIST_OPEN);
    let n: usize = files.len();
    let mut i: usize = 0;
    while i < n
        invariant
            n == files@.len(),
            i <= n,
            vals == file_views(files@).map_values(|f: FileView| file_value(f)),
            out@ == old(out)@ + seq![LIST_OPEN] + encode_items(vals.take(i as int)),
        decreases n - i,
    {
        write_file(out, &files[i]);
        proof {
            lemma_encode_items_push(vals.take(i as int), vals[i as int]);
            assert(vals.take(i + 1) =~= vals.take(i as int).push(vals[i as int]));
        }
        i = i + 1;
    }
    out.push(CLOSE);
    proof {
        assert(vals.take(n as int) =~= vals);
        assert(out@ =~= old(out)@ + encode(files_value(file_views(files@))));
    }
}

fn write_announce_list(out: &mut Vec<u8>, trackers: &Vec<Vec<Vec<u8>>>)
    ensures
        final(out)@ == old(out)@ + encode(announce_list_value(tiers(trackers@))),
{
    let ghost vals: Seq<Bencode> = tiers(trackers@).map_values(|t: Seq<Seq<u8>>| bytes_list(t));
    out.push(LIST_OPEN);
    let n: usize = trackers.len();
    let mut i: usize = 0;
    while i < n
        invariant
            n == trackers@.len(),
            i <= n,
            vals == tiers(trackers@).map_values(|t: Seq<Seq<u8>>| bytes_list(t)),
            out@ == old(out)@ + seq![LIST_OPEN] + encode_items(vals.take(i as int)),
        decreases n - i,
    {
        write_bytes_list(out, &trackers[i]);
        proof {
            lemma_encode_items_push(vals.take(i as int), vals[i as int]);
            assert(vals.take(i + 1) =~= vals.take(i as int).push(vals[i as int]));
        }
        i = i + 1;
    }
    out.push(CLOSE);
    proof {
        assert(vals.take(n as int) =~= vals);
        assert(out@ =~= old(out)@ + encode(announce_list_value(tiers(trackers@))));
    }
}

fn write_info(out: &mut Vec<u8>, config: &BuildConfig, files: &Vec<FileEntry>, pieces: &[u8])
    ensures
        final(out)@ == old(out)@ + encode(info_value(config@, file_views(files@), pieces@)),
{
    let ghost c: ConfigView = config@;
    let ghost fv: Seq<FileView> = file_views(files@);
    let ghost base: Seq<u8> = old(out)@ + seq![DICT_OPEN];
    let ghost e0: Seq<(Seq<u8>, Bencode)> = Seq::empty();
    proof {
        lemma_keys_are_ascii();
    }
    out.push(DICT_OPEN);
    let ghost s0: Seq<u8> = out@;
    assert(s0 =~= base + encode_entries(e0));
    let single: bool = files.len() == 1 && files[0].path.len() == 0;
    assert(single == single_file(fv));
    if single {
        write_text(out, "length");
        write_uint(out, files[0].length);
    } else {
        write_text(out, "files");
        write_files(out, files);
    }
    let ghost s1: Seq<u8> = out@;
    let ghost first: (Seq<u8>, Bencode) = info_first_entry(fv);
    let ghost e1 = with_entry(e0, true, first.0, first.1);
    proof {
        lemma_entry_written(base, e0, true, first.0, first.1, s0, s1);
    }
    write_text(out, "name");
    write_bytes(out, config.name.as_slice());
    let ghost s2: Seq<u8> = out@;
    let ghost e2 = with_entry(e1, true, ascii("name"@), Bencode::Bytes(c.name));
    proof {
        lemma_entry_written(base, e1, true, ascii("name"@), Bencode::Bytes(c.name), s1, s2);
    }
    write_text(out, "piece length");
    write_uint(out, config.piece_length);
    let ghost s3: Seq<u8> = out@;
    let ghost v3: Bencode = Bencode::Int(c.piece_length as int);
    let ghost e3 = with_entry(e2, true, ascii("piece length"@), v3);
    proof {
        lemma_entry_written(base, e2, true, ascii("piece length"@), v3, s2, s3);
    }
    write_text(out, "pieces");
    write_bytes(out, pieces);
    let ghost s4: Seq<u8> = out@;
    let ghost e4 = with_entry(e3, true, ascii("pieces"@), Bencode::Bytes(pieces@));
    proof {
        lemma_entry_written(base, e3, true, ascii("pieces"@), Bencode::Bytes(pieces@), s3, s4);
    }
    if config.private {
        write_text(out, "private");
        write_uint(out, 1);
    }
    let ghost s5: Seq<u8> = out@;
    let ghost e5 = with_entry(e4, c.private, ascii("private"@), Bencode::Int(1));
    proof {
        lemma_entry_written(base, e4, c.private, ascii("private"@), Bencode::Int(1), s4, s5);
    }
    out.push(CLOSE);
    proof {
        assert(e4 =~= seq![
            first,
            (ascii("name"@), Bencode::Bytes(c.name)),
            (ascii("piece length"@), v3),
            (ascii("pieces"@), Bencode::Bytes(pieces@)),
        ]);
        assert(e5 == info_entries(c, fv, pieces@));
        lemma_dict_written(old(out)@, e5, s5, out@);
    }
}

/// Writes the descriptor of a build: the bencoded dictionary of the
/// configuration's top-level fields and the info dictionary. `pieces` holds
/// the digests of all pieces, in index order.
pub fn assemble(config: &BuildConfig, files: &Vec<FileEntry>, pieces: &[u8]) -> (out: Vec<u8>)
    ensures
        out@ == encode(metainfo_value(config@, file_views(files@), pieces@)),
{
    let ghost c: ConfigView = config@;
    let ghost fv: Seq<FileView> = file_views(files@);
    let ghost base: Seq<u8> = Seq::<u8>::empty() + seq![DICT_OPEN];
    let ghost e0: Seq<(Seq<u8>, Bencode)> = Seq::empty();
    proof {
        lemma_keys_are_ascii();
    }
    let mut out: Vec<u8> = Vec::new();
    out.push(DICT_OPEN);
    let ghost s0: Seq<u8> = out@;
    assert(s0 =~= base + encode_entries(e0));
    let announce: bool = config.trackers.len() > 0 && config.trackers[0].len() > 0;
    proof {
        if config.trackers@.len() > 0 {
            assert(c.trackers[0] == strings(config.trackers@[0]@));
        }
    }
    if announce {
        assert(c.trackers[0][0] == config.trackers@[0]@[0]@);
        write_text(&mut out, "announce");
        write_bytes(&mut out, config.trackers[0][0].as_slice());
    }
    let ghost s1: Seq<u8> = out@;
    let ghost v1: Bencode = Bencode::Bytes(c.trackers[0][0]);
    let ghost e1 = with_entry(e0, has_announce(c), ascii("announce"@), v1);
    proof {
        lemma_entry_written(base, e0, has_announce(c), ascii("announce"@), v1, s0, s1);
    }
    let listed: bool = config.trackers.len() > 0 && !(config.trackers.len() == 1
        && config.trackers[0].len() == 1);
    if listed {
        write_text(&mut out, "announce-list");
        write_announce_list(&mut out, &config.trackers);
    }
    let ghost s2: Seq<u8> = out@;
    let ghost v2: Bencode = announce_list_value(c.trackers);
    let ghost e2 = with_entry(e1, has_announce_list(c), ascii("announce-list"@), v2);
    proof {
        lemma_entry_written(base, e1, has_announce_list(c), ascii("announce-list"@), v2, s1, s2);
    }
    match &config.comment {
        Some(comment) => {
            write_text(&mut out, "comment");
            write_bytes(&mut out, comment.as_slice());
        },
        None => {},
    }
    let ghost s3: Seq<u8> = out@;
    let ghost v3: Bencode = Bencode::Bytes(c.comment.unwrap());
    let ghost e3 = with_entry(e2, c.comment is Some, ascii("comment"@), v3);
    proof {
        lemma_entry_written(base, e2, c.comment is Some, ascii("comment"@), v3, s2, s3);
    }
    match &config.created_by {
        Some(creator) => {
            write_text(&mut out, "created by");
            write_bytes(&mut out, creator.as_slice());
        },
        None => {},
    }
    let ghost s4: Seq<u8> = out@;
    let ghost v4: Bencode = Bencode::Bytes(c.created_by.unwrap());
    let ghost e4 = with_entry(e3, c.created_by is Some, ascii("created by"@), v4);
    proof {
        lemma_entry_written(base, e3, c.created_by is Some, ascii("created by"@), v4, s3, s4);
    }
    match config.creation_date {
        Some(date) => {
            write_text(&mut out, "creation date");
            write_int(&mut out, date);
        },
        None => {},
    }
    let ghost s5: Seq<u8> = out@;
    let ghost v5: Bencode = Bencode::Int(c.creation_date.unwrap());
    let ghost e5 = with_entry(e4, c.creation_date is Some, ascii("creation date"@), v5);
    proof {
        lemma_entry_written(base, e4, c.creation_date is Some, ascii("creation date"@), v5, s4, s5);
    }
    write_text(&mut out, "info");
    write_info(&mut out, config, files, pieces);
    let ghost s6: Seq<u8> = out@;
    let ghost v6: Bencode = info_value(c, fv, pieces@);
    let ghost e6 = with_entry(e5, true, ascii("info"@), v6);
    proof {
        lemma_entry_written(base, e5, true, ascii("info"@), v6, s5, s6);
    }
    out.push(CLOSE);
    proof {
        assert(e6 == metainfo_entries(c, fv, pieces@));
        lemma_dict_written(Seq::<u8>::empty(), e6, s6, out@);
        assert(Seq::<u8>::empty() + encode(metainfo_value(c, fv, pieces@)) =~= encode(
            metainfo_value(c, fv, pieces@),
        ));
    }
    out
}

} // verus!
