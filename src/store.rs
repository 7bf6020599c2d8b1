//! The credential file: one record per line, `username:sealed`, where the
//! sealed part is the hex text of a sealed password. Every operation works on
//! the whole text of the file: it reads all records, transforms them, and
//! gives back the whole new text, which the caller writes in one piece.
//!
//! Nothing here locks the file: two writers racing on one file lose updates
//! (the last whole-file write wins).
use vstd::prelude::*;
use vstd::string::*;
use vstd::utf8::encode_utf8;
use crate::crypto::{Cipher, CryptoManager, DecryptError, NONCE_LEN, decrypt_outcome, normalized_key, sealable, sealed_text, sealed_text_len};
use crate::hex_text::is_lower_hex;
use crate::hex_text::{hex_encode, hex_digits};

verus! {

/// A record as values: username and sealed text.
pub type Record = (Seq<char>, Seq<char>);

/// The pieces of a text between line breaks: a text with k breaks has k + 1
/// pieces, the last one empty when the text ends with a break.
pub open spec fn pieces(s: Seq<char>) -> Seq<Seq<char>>
    decreases s.len(),
{
    if s.len() == 0 {
        seq![Seq::empty()]
    } else {
        let front = pieces(s.drop_last());
        if s.last() == '\n' {
            front.push(Seq::empty())
        } else {
            front.update(front.len() - 1, front.last().push(s.last()))
        }
    }
}

/// A line split at its first ':' into the text before it and the text after
/// it; `None` when the line holds no ':'.
pub open spec fn split_first_colon(line: Seq<char>) -> Option<Record>
    decreases line.len(),
{
    if line.len() == 0 {
        None
    } else if line[0] == ':' {
        Some((Seq::empty(), line.skip(1)))
    } else {
        match split_first_colon(line.skip(1)) {
            Some((u, r)) => Some((seq![line[0]] + u, r)),
            None => None,
        }
    }
}

/// The records of a list of lines, in order: lines without ':' give none.
pub open spec fn records_of_lines(lines: Seq<Seq<char>>) -> Seq<Record>
    decreases lines.len(),
{
    if lines.len() == 0 {
        Seq::empty()
    } else {
        let front = records_of_lines(lines.drop_last());
        match split_first_colon(lines.last()) {
            Some(r) => front.push(r),
            None => front,
        }
    }
}

/// The records that a file's text holds, in file order.
pub open spec fn parse_records(s: Seq<char>) -> Seq<Record> {
    records_of_lines(pieces(s))
}

/// The text of a file holding the given records, one line each.
pub open spec fn records_text(rs: Seq<Record>) -> Seq<char>
    decreases rs.len(),
{
    if rs.len() == 0 {
        Seq::empty()
    } else {
        records_text(rs.drop_last()) + rs.last().0 + seq![':'] + rs.last().1 + seq!['\n']
    }
}

/// A vector of string pairs as values.
pub open spec fn pairs_view(v: Seq<(String, String)>) -> Seq<Record> {
    Seq::new(v.len(), |i: int| (v[i].0@, v[i].1@))
}

/// Relies on `String::push`: the character is added at the end.
#[verifier::external_body]
pub(crate) fn push_char(s: &mut String, c: char)
    ensures
        final(s)@ == old(s)@.push(c),
{
    s.push(c)
}

proof fn lemma_split_push(line: Seq<char>, c: char)
    ensures
        split_first_colon(line.push(c)) == match split_first_colon(line) {
            Some((u, r)) => Some((u, r.push(c))),
            None => if c == ':' {
                Some((line, Seq::<char>::empty()))
            } else {
                None::<Record>
            },
        },
    decreases line.len(),
{
    let l2 = line.push(c);
    if line.len() == 0 {
        assert(l2.skip(1) =~= Seq::<char>::empty());
        assert(split_first_colon(l2.skip(1)) == None::<Record>);
    } else {
        assert(l2.skip(1) =~= line.skip(1).push(c));
        lemma_split_push(line.skip(1), c);
        if line[0] == ':' {
            assert(line.skip(1).push(c) =~= l2.skip(1));
        } else {
            match split_first_colon(line.skip(1)) {
                Some((u, r)) => {},
                None => {
                    if c == ':' {
                        assert(seq![line[0]] + line.skip(1) =~= line);
                    }
                },
            }
        }
    }
}

/// The records of a file's text, in file order: each line that holds a ':'
/// gives the text before its first ':' and the text after it; other lines
/// are skipped.
pub fn load_enc_passwords(contents: &str) -> (r: Vec<(String, String)>)
    ensures
        pairs_view(r@) == parse_records(contents@),
{
    let mut r: Vec<(String, String)> = Vec::new();
    let mut user = String::new();
    let mut rest = String::new();
    let mut seen = false;
    let ghost mut i: int = 0;
    for c in it: contents.chars()
        invariant
            i == it.index(),
            it.seq() == contents@,
            0 <= i <= contents@.len(),
            pieces(contents@.take(i)).len() > 0,
            pairs_view(r@) == records_of_lines(pieces(contents@.take(i)).drop_last()),
            ({
                let cur = pieces(contents@.take(i)).last();
                if seen {
                    split_first_colon(cur) == Some((user@, rest@))
                } else {
                    split_first_colon(cur) is None && user@ == cur && rest@ == Seq::<char>::empty()
                }
            }),
    {
        let ghost pre = contents@.take(i);
        let ghost cur = pieces(pre).last();
        assert(contents@.take(i + 1) =~= pre.push(c));
        assert(contents@.take(i + 1).drop_last() =~= pre);
        proof {
            lemma_split_push(cur, c);
        }
        if c == '\n' {
            if seen {
                r.push((user, rest));
            }
            user = String::new();
            rest = String::new();
            seen = false;
            proof {
                let ps = pieces(pre);
                assert(pieces(pre.push(c)).drop_last() =~= ps);
                assert(ps.drop_last().push(ps.last()) =~= ps);
                assert(pairs_view(r@) =~= records_of_lines(ps));
                assert(pieces(contents@.take(i + 1)).last() == Seq::<char>::empty());
                assert(split_first_colon(Seq::<char>::empty()) is None);
                assert(user@ =~= Seq::<char>::empty());
            }
        } else {
            if seen {
                push_char(&mut rest, c);
            } else if c == ':' {
                seen = true;
            } else {
                push_char(&mut user, c);
            }
            proof {
                let ps = pieces(pre);
                assert(pieces(pre.push(c)).drop_last() =~= ps.drop_last());
                assert(pieces(contents@.take(i + 1)).last() == cur.push(c));
            }
        }
        proof {
            i = i + 1;
        }
    }
    proof {
        let ps = pieces(contents@.take(i));
        assert(contents@.take(i) =~= contents@);
        assert(ps.drop_last().push(ps.last()) =~= ps);
    }
    if seen {
        r.push((user, rest));
    }
    assert(pairs_view(r@) =~= parse_records(contents@));
    r
}


/// The text of the given records, one `username:sealed` line each, in order.
pub fn write_records(records: &Vec<(String, String)>) -> (r: String)
    ensures
        r@ == records_text(pairs_view(records@)),
{
    let mut r = String::new();
    let mut i: usize = 0;
    while i < records.len()
        invariant
            i <= records@.len(),
            r@ == records_text(pairs_view(records@).take(i as int)),
        decreases records.len() - i,
    {
        proof {
            reveal_strlit(":");
            reveal_strlit("\n");
        }
        let ghost before = r@;
        r.append(records[i].0.as_str());
        r.append(":");
        r.append(records[i].1.as_str());
        r.append("\n");
        proof {
            let rs = pairs_view(records@).take(i + 1);
            assert(rs.drop_last() =~= pairs_view(records@).take(i as int));
            assert(rs.last() == (records@[i as int].0@, records@[i as int].1@));
            assert(r@ =~= before + rs.last().0 + seq![':'] + rs.last().1 + seq!['\n']);
        }
        i = i + 1;
    }
    assert(pairs_view(records@).take(i as int) =~= pairs_view(records@));
    r
}

/// Text that a username can carry through the file unchanged: no ':' and
/// no line break.
pub open spec fn is_plain_username(u: Seq<char>) -> bool {
    forall|j: int| 0 <= j < u.len() ==> u[j] != ':' && u[j] != '\n'
}

/// Text that a sealed part can carry through the file unchanged: no line
/// break.
pub open spec fn is_plain_sealed(s: Seq<char>) -> bool {
    forall|j: int| 0 <= j < s.len() ==> s[j] != '\n'
}

/// Records that come back unchanged from their own text.
pub open spec fn plain_records(rs: Seq<Record>) -> bool {
    forall|j: int| 0 <= j < rs.len() ==> is_plain_username(#[trigger] rs[j].0) && is_plain_sealed(rs[j].1)
}

/// The line of a record, without its break.
pub open spec fn record_line(r: Record) -> Seq<char> {
    r.0 + seq![':'] + r.1
}

proof fn lemma_pieces_append_line(s: Seq<char>, line: Seq<char>)
    requires
        forall|j: int| 0 <= j < line.len() ==> line[j] != '\n',
    ensures
        pieces(s).len() > 0,
        pieces(s + line) == pieces(s).update(pieces(s).len() - 1, pieces(s).last() + line),
    decreases line.len(),
{
    lemma_pieces_nonempty(s);
    if line.len() == 0 {
        assert(s + line =~= s);
        assert(pieces(s).last() + line =~= pieces(s).last());
        assert(pieces(s).update(pieces(s).len() - 1, pieces(s).last()) =~= pieces(s));
    } else {
        let l0 = line.drop_last();
        lemma_pieces_append_line(s, l0);
        assert((s + line).drop_last() =~= s + l0);
        assert((pieces(s).last() + l0).push(line.last()) =~= pieces(s).last() + line);
        let ps = pieces(s);
        let front = pieces(s + l0);
        assert(front.last() == ps.last() + l0);
        assert(front.len() == ps.len());
        assert(line.last() != '\n');
        assert((s + line).last() == line.last());
        assert(pieces(s + line) == front.update(front.len() - 1, front.last().push(line.last())));
        assert(front.update(front.len() - 1, front.last().push(line.last()))
            =~= ps.update(ps.len() - 1, ps.last() + line));
    }
}

proof fn lemma_pieces_nonempty(s: Seq<char>)
    ensures
        pieces(s).len() > 0,
    decreases s.len(),
{
    if s.len() > 0 {
        lemma_pieces_nonempty(s.drop_last());
    }
}

proof fn lemma_pieces_records_text(rs: Seq<Record>)
    requires
        plain_records(rs),
    ensures
        pieces(records_text(rs)) == Seq::new(rs.len(), |j: int| record_line(rs[j])).push(Seq::<char>::empty()),
    decreases rs.len(),
{
    let lines = Seq::new(rs.len(), |j: int| record_line(rs[j]));
    if rs.len() == 0 {
        assert(pieces(records_text(rs)) =~= lines.push(Seq::<char>::empty()));
    } else {
        let front = rs.drop_last();
        let t0 = records_text(front);
        let line = record_line(rs.last());
        assert(plain_records(front));
        lemma_pieces_records_text(front);
        let lines0 = Seq::new(front.len(), |j: int| record_line(front[j]));
        assert(is_plain_username(rs.last().0));
        assert(forall|j: int| 0 <= j < line.len() ==> line[j] != '\n');
        lemma_pieces_append_line(t0, line);
        let t1 = t0 + line;
        assert(records_text(rs) =~= t1.push('\n'));
        assert(t1.push('\n').drop_last() =~= t1);
        assert(pieces(t0).last() =~= Seq::<char>::empty());
        assert(Seq::<char>::empty() + line =~= line);
        assert(pieces(t1) =~= lines0.push(line));
        assert(lines0.push(line) =~= lines);
    }
}

proof fn lemma_split_record_line(u: Seq<char>, r: Seq<char>)
    requires
        forall|j: int| 0 <= j < u.len() ==> u[j] != ':',
    ensures
        split_first_colon(u + seq![':'] + r) == Some((u, r)),
    decreases u.len(),
{
    let line = u + seq![':'] + r;
    if u.len() == 0 {
        assert(line[0] == ':');
        assert(line.skip(1) =~= r);
    } else {
        let u1 = u.skip(1);
        lemma_split_record_line(u1, r);
        assert(line.skip(1) =~= u1 + seq![':'] + r);
        assert(seq![u[0]] + u1 =~= u);
    }
}

proof fn lemma_records_of_record_lines(rs: Seq<Record>)
    requires
        plain_records(rs),
    ensures
        records_of_lines(Seq::new(rs.len(), |j: int| record_line(rs[j]))) == rs,
    decreases rs.len(),
{
    let lines = Seq::new(rs.len(), |j: int| record_line(rs[j]));
    if rs.len() > 0 {
        let front = rs.drop_last();
        assert(plain_records(front));
        lemma_records_of_record_lines(front);
        assert(lines.drop_last() =~= Seq::new(front.len(), |j: int| record_line(front[j])));
        assert(is_plain_username(rs.last().0));
        lemma_split_record_line(rs.last().0, rs.last().1);
        assert(front.push(rs.last()) =~= rs);
    }
}

/// Records whose usernames hold no ':' or line break, and whose sealed parts
/// hold no line break, are read back from their text exactly as written.
pub proof fn lemma_records_round_trip(rs: Seq<Record>)
    requires
        plain_records(rs),
    ensures
        parse_records(records_text(rs)) == rs,
{
    let lines = Seq::new(rs.len(), |j: int| record_line(rs[j]));
    lemma_pieces_records_text(rs);
    lemma_records_of_record_lines(rs);
    assert(lines.push(Seq::<char>::empty()).drop_last() =~= lines);
    assert(split_first_colon(Seq::<char>::empty()) is None);
}


proof fn lemma_pieces_no_break(s: Seq<char>)
    ensures
        forall|k: int, j: int| 0 <= k < pieces(s).len() && 0 <= j < pieces(s)[k].len() ==> #[trigger] pieces(s)[k][j] != '\n',
    decreases s.len(),
{
    if s.len() > 0 {
        lemma_pieces_no_break(s.drop_last());
        lemma_pieces_nonempty(s.drop_last());
    }
}

proof fn lemma_split_parts(line: Seq<char>)
    requires
        split_first_colon(line) is Some,
    ensures
        ({
            let (u, r) = split_first_colon(line)->0;
            &&& u.len() < line.len()
            &&& u == line.take(u.len() as int)
            &&& r == line.skip(u.len() as int + 1)
            &&& forall|j: int| 0 <= j < u.len() ==> u[j] != ':'
        }),
    decreases line.len(),
{
    if line[0] != ':' {
        lemma_split_parts(line.skip(1));
        let (u1, r1) = split_first_colon(line.skip(1))->0;
        assert(seq![line[0]] + u1 =~= line.take(u1.len() as int + 1));
        assert(line.skip(1).skip(u1.len() as int + 1) =~= line.skip(u1.len() as int + 2));
    }
}

proof fn lemma_records_of_plain_lines(lines: Seq<Seq<char>>)
    requires
        forall|k: int, j: int| 0 <= k < lines.len() && 0 <= j < lines[k].len() ==> #[trigger] lines[k][j] != '\n',
    ensures
        plain_records(records_of_lines(lines)),
    decreases lines.len(),
{
    if lines.len() > 0 {
        let front = lines.drop_last();
        assert forall|k: int, j: int| 0 <= k < front.len() && 0 <= j < front[k].len() implies #[trigger] front[k][j] != '\n' by {
            assert(front[k] == lines[k]);
        }
        lemma_records_of_plain_lines(front);
        let line = lines.last();
        assert(forall|j: int| 0 <= j < line.len() ==> line[j] != '\n') by {
            assert(forall|j: int| 0 <= j < line.len() ==> lines[lines.len() - 1][j] == line[j]);
        }
        if split_first_colon(line) is Some {
            lemma_split_parts(line);
            let (u, r) = split_first_colon(line)->0;
            assert(forall|j: int| 0 <= j < u.len() ==> u[j] == line[j]);
            assert(forall|j: int| 0 <= j < r.len() ==> r[j] == line[j + u.len() + 1]);
        }
    }
}

/// Every record read from a file's text has a username without ':' or line
/// break and a sealed part without line break.
pub proof fn lemma_parsed_records_are_plain(s: Seq<char>)
    ensures
        plain_records(parse_records(s)),
{
    lemma_pieces_no_break(s);
    lemma_records_of_plain_lines(pieces(s));
}

proof fn lemma_hex_has_no_break(b: Seq<u8>)
    ensures
        is_plain_sealed(hex_encode(b)),
    decreases b.len(),
{
    if b.len() > 0 {
        lemma_hex_has_no_break(b.drop_last());
        let x = b.last();
        let d = hex_digits();
        assert(forall|n: int| 0 <= n < 16 ==> d[n] != '\n');
        let h = hex_encode(b);
        let front = hex_encode(b.drop_last());
        assert(forall|j: int| 0 <= j < front.len() ==> h[j] == front[j]);
    }
}

/// The records with the first one named `u` (if any) given the sealed part `s`.
pub open spec fn with_first_replaced(rs: Seq<Record>, u: Seq<char>, s: Seq<char>) -> Seq<Record> {
    if exists|j: int| is_first_named(rs, u, j) {
        rs.update(choose|j: int| is_first_named(rs, u, j), (u, s))
    } else {
        rs
    }
}

/// `j` is the position of the first record named `u`.
pub open spec fn is_first_named(rs: Seq<Record>, u: Seq<char>, j: int) -> bool {
    &&& 0 <= j < rs.len()
    &&& rs[j].0 == u
    &&& forall|k: int| 0 <= k < j ==> rs[k].0 != u
}

/// The records not named `u`, in order.
pub open spec fn without_user(rs: Seq<Record>, u: Seq<char>) -> Seq<Record> {
    rs.filter(|r: Record| r.0 != u)
}

/// The (username, plaintext) pairs of the records that open under `key`, in order.
pub open spec fn opened_records(rs: Seq<Record>, key: Seq<u8>) -> Seq<Record> {
    rs.filter_map(|r: Record| match decrypt_outcome(key, r.1) {
        Ok(p) => Some((r.0, p)),
        Err(_) => None,
    })
}

/// The usernames of the records that do not open under `key`, with why, in order.
pub open spec fn failed_records(rs: Seq<Record>, key: Seq<u8>) -> Seq<(Seq<char>, DecryptError)> {
    rs.filter_map(|r: Record| match decrypt_outcome(key, r.1) {
        Ok(_) => None,
        Err(e) => Some((r.0, e)),
    })
}

/// Empty file text (what a missing file reads as) holds no records, so
/// nothing opens from it under any key.
pub proof fn lemma_empty_text_has_no_records(key: Seq<u8>)
    ensures
        parse_records(Seq::empty()) == Seq::<Record>::empty(),
        opened_records(parse_records(Seq::empty()), key) == Seq::<Record>::empty(),
{
    let ps = pieces(Seq::<char>::empty());
    assert(ps == seq![Seq::<char>::empty()]);
    assert(ps.drop_last() =~= Seq::<Seq<char>>::empty());
    assert(records_of_lines(ps.drop_last()) == Seq::<Record>::empty());
    assert(split_first_colon(ps.last()) is None);
    assert(parse_records(Seq::empty()) == records_of_lines(ps));
    reveal_with_fuel(Seq::filter_map, 1);
}

/// A cipher under the key framed from `key`.
pub fn set_enc_key(key: String) -> (c: Cipher)
    ensures
        c.key() == normalized_key(encode_utf8(key@)),
{
    Cipher::new(key.as_str())
}


/// Seals `password` under the key framed from `key` and gives the file text
/// with the record `username:sealed` added after all existing ones. A record
/// already named `username` stays: duplicates accumulate.
pub fn save_password(contents: &str, username: &str, password: &str, key: &str) -> (r: String)
    requires
        sealable(password@),
    ensures
        exists|n: Seq<u8>| {
            let new_records = parse_records(contents@).push(
                (username@, #[trigger] sealed_text(normalized_key(key.spec_bytes()), n, password@)),
            );
            &&& n.len() == NONCE_LEN
            &&& r@ == records_text(new_records)
            &&& is_plain_username(username@) ==> parse_records(r@) == new_records
            &&& new_records.last().1.len() == sealed_text_len(password.spec_bytes().len() as int)
            &&& is_lower_hex(new_records.last().1)
        },
{
    let cipher = Cipher::new(key);
    let sealed = cipher.encrypt(password.to_owned());
    let mut records = load_enc_passwords(contents);
    let ghost old_records = records@;
    records.push((username.to_owned(), sealed));
    let r = write_records(&records);
    proof {
        let k = normalized_key(key.spec_bytes());
        let n = choose|n: Seq<u8>| n.len() == NONCE_LEN && sealed@ == #[trigger] sealed_text(k, n, password@);
        let new_records = parse_records(contents@).push((username@, sealed_text(k, n, password@)));
        assert(pairs_view(records@) =~= new_records);
        if is_plain_username(username@) {
            lemma_parsed_records_are_plain(contents@);
            lemma_hex_has_no_break(n + crate::crypto::aes256gcm_seal(k, n, encode_utf8(password@)));
            assert(plain_records(new_records));
            lemma_records_round_trip(new_records);
        }
    }
    r
}

/// Gives the file text with the sealed part of the first record named
/// `username` replaced by `new_password`, sealed anew under the key framed
/// from `key`. Without such a record the records are written back unchanged.
pub fn modify_password(contents: &str, username: &str, new_password: &str, key: &str) -> (r: String)
    requires
        sealable(new_password@),
    ensures
        exists|n: Seq<u8>| {
            let new_records = with_first_replaced(
                parse_records(contents@),
                username@,
                #[trigger] sealed_text(normalized_key(key.spec_bytes()), n, new_password@),
            );
            &&& n.len() == NONCE_LEN
            &&& r@ == records_text(new_records)
            &&& parse_records(r@) == new_records
        },
{
    let mut records = load_enc_passwords(contents);
    let name = username.to_owned();
    let ghost rs = pairs_view(records@);
    let mut i: usize = 0;
    while i < records.len() && records[i].0 != name
        invariant
            i <= records@.len(),
            rs == pairs_view(records@),
            name@ == username@,
            forall|k: int| 0 <= k < i ==> rs[k].0 != username@,
        decreases records.len() - i,
    {
        i = i + 1;
    }
    let ghost k = normalized_key(key.spec_bytes());
    let ghost mut n: Seq<u8> = Seq::empty();
    if i < records.len() {
        let cipher = Cipher::new(key);
        let sealed = cipher.encrypt(new_password.to_owned());
        proof {
            n = choose|n: Seq<u8>| n.len() == NONCE_LEN && sealed@ == #[trigger] sealed_text(k, n, new_password@);
        }
        records[i] = (name, sealed);
        proof {
            assert(is_first_named(rs, username@, i as int));
            let j = choose|j: int| is_first_named(rs, username@, j);
            assert(j == i);
            assert(pairs_view(records@) =~= with_first_replaced(rs, username@, sealed_text(k, n, new_password@)));
        }
    } else {
        proof {
            n = Seq::new(NONCE_LEN as nat, |j: int| 0u8);
            assert(!exists|j: int| is_first_named(rs, username@, j));
            assert(pairs_view(records@) == with_first_replaced(rs, username@, sealed_text(k, n, new_password@)));
        }
    }
    let r = write_records(&records);
    proof {
        let new_records = with_first_replaced(rs, username@, sealed_text(k, n, new_password@));
        lemma_parsed_records_are_plain(contents@);
        if exists|j: int| is_first_named(rs, username@, j) {
            let j = choose|j: int| is_first_named(rs, username@, j);
            lemma_hex_has_no_break(n + crate::crypto::aes256gcm_seal(k, n, encode_utf8(new_password@)));
            assert(is_plain_username(rs[j].0));
            assert(is_plain_sealed(sealed_text(k, n, new_password@)));
            assert(new_records == rs.update(j, (username@, sealed_text(k, n, new_password@))));
            assert forall|m: int| 0 <= m < new_records.len() implies is_plain_username(#[trigger] new_records[m].0)
                && is_plain_sealed(new_records[m].1) by {
                if m != j {
                    assert(new_records[m] == rs[m]);
                } else {
                    assert(new_records[m] == (username@, sealed_text(k, n, new_password@)));
                }
            }
        }
        lemma_records_round_trip(new_records);
        assert(n.len() == NONCE_LEN);
    }
    r
}

proof fn lemma_without_user_step(rs: Seq<Record>, u: Seq<char>)
    requires
        rs.len() > 0,
    ensures
        without_user(rs, u) == if rs.last().0 != u {
            without_user(rs.drop_last(), u).push(rs.last())
        } else {
            without_user(rs.drop_last(), u)
        },
{
    reveal_with_fuel(Seq::filter, 1);
}

proof fn lemma_without_user_plain(rs: Seq<Record>, u: Seq<char>)
    requires
        plain_records(rs),
    ensures
        plain_records(without_user(rs, u)),
    decreases rs.len(),
{
    if rs.len() > 0 {
        let front = rs.drop_last();
        assert(plain_records(front));
        lemma_without_user_plain(front, u);
        lemma_without_user_step(rs, u);
        assert(is_plain_username(rs[rs.len() - 1].0));
    }
}

/// Gives the file text without every record named `username`; the others
/// keep their order and text.
pub fn remove_password(contents: &str, username: &str) -> (r: String)
    ensures
        r@ == records_text(without_user(parse_records(contents@), username@)),
        parse_records(r@) == without_user(parse_records(contents@), username@),
{
    let records = load_enc_passwords(contents);
    let name = username.to_owned();
    let ghost rs = pairs_view(records@);
    let mut kept: Vec<(String, String)> = Vec::new();
    let mut i: usize = 0;
    while i < records.len()
        invariant
            i <= records@.len(),
            rs == pairs_view(records@),
            name@ == username@,
            pairs_view(kept@) == without_user(rs.take(i as int), username@),
        decreases records.len() - i,
    {
        proof {
            assert(rs.take(i + 1).drop_last() =~= rs.take(i as int));
        }
        let ghost before = kept@;
        let ghost t = rs.take(i + 1);
        assert(t.last() == rs[i as int]);
        if records[i].0 != name {
            kept.push((records[i].0.clone(), records[i].1.clone()));
            assert(pairs_view(kept@) =~= pairs_view(before).push(rs[i as int]));
        } else {
            assert(kept@ == before);
        }
        proof {
            lemma_without_user_step(t, username@);
        }
        assert(pairs_view(kept@) =~= without_user(t, username@));
        i = i + 1;
    }
    assert(rs.take(i as int) =~= rs);
    let r = write_records(&kept);
    proof {
        let out = without_user(rs, username@);
        lemma_parsed_records_are_plain(contents@);
        lemma_without_user_plain(rs, username@);
        lemma_records_round_trip(out);
    }
    r
}


proof fn lemma_opened_step(rs: Seq<Record>, key: Seq<u8>)
    requires
        rs.len() > 0,
    ensures
        opened_records(rs, key) == match decrypt_outcome(key, rs.last().1) {
            Ok(p) => opened_records(rs.drop_last(), key).push((rs.last().0, p)),
            Err(_) => opened_records(rs.drop_last(), key),
        },
        failed_records(rs, key) == match decrypt_outcome(key, rs.last().1) {
            Ok(_) => failed_records(rs.drop_last(), key),
            Err(e) => failed_records(rs.drop_last(), key).push((rs.last().0, e)),
        },
{
    reveal_with_fuel(Seq::filter_map, 1);
    assert(opened_records(rs, key) =~= match decrypt_outcome(key, rs.last().1) {
        Ok(p) => opened_records(rs.drop_last(), key).push((rs.last().0, p)),
        Err(_) => opened_records(rs.drop_last(), key),
    });
    assert(failed_records(rs, key) =~= match decrypt_outcome(key, rs.last().1) {
        Ok(_) => failed_records(rs.drop_last(), key),
        Err(e) => failed_records(rs.drop_last(), key).push((rs.last().0, e)),
    });
}

/// Opens every record of the file under the key framed from `key`, in one
/// pass: the (username, password) pairs of the records that open, and the
/// usernames of those that do not, each with why, both in file order.
pub fn open_records(contents: &str, key: &str) -> (r: (Vec<(String, String)>, Vec<(String, DecryptError)>))
    ensures
        pairs_view(r.0@) == opened_records(parse_records(contents@), normalized_key(key.spec_bytes())),
        r.1@.len() == failed_records(parse_records(contents@), normalized_key(key.spec_bytes())).len(),
        forall|j: int| 0 <= j < r.1@.len() ==> ((#[trigger] r.1@[j]).0@, r.1@[j].1) == failed_records(
            parse_records(contents@),
            normalized_key(key.spec_bytes()),
        )[j],
{
    let cipher = Cipher::new(key);
    let records = load_enc_passwords(contents);
    let ghost rs = pairs_view(records@);
    let ghost k = cipher.key();
    let mut opened: Vec<(String, String)> = Vec::new();
    let mut failed: Vec<(String, DecryptError)> = Vec::new();
    let mut i: usize = 0;
    while i < records.len()
        invariant
            i <= records@.len(),
            rs == pairs_view(records@),
            k == cipher.key(),
            pairs_view(opened@) == opened_records(rs.take(i as int), k),
            failed@.len() == failed_records(rs.take(i as int), k).len(),
            forall|j: int| 0 <= j < failed@.len() ==> ((#[trigger] failed@[j]).0@, failed@[j].1) == failed_records(rs.take(i as int), k)[j],
        decreases records.len() - i,
    {
        let ghost before = opened@;
        let ghost t = rs.take(i + 1);
        proof {
            assert(t.drop_last() =~= rs.take(i as int));
            lemma_opened_step(t, k);
        }
        match cipher.decrypt(records[i].1.clone()) {
            Ok(p) => {
                opened.push((records[i].0.clone(), p));
                assert(pairs_view(opened@) =~= pairs_view(before).push((rs[i as int].0, p@)));
            },
            Err(e) => {
                failed.push((records[i].0.clone(), e));
            },
        }
        i = i + 1;
    }
    assert(rs.take(i as int) =~= rs);
    (opened, failed)
}

/// The (username, password) pairs of the file's records that open under the
/// key framed from `key`, in file order. A record that does not open is
/// left out; the others still come back.
pub fn load_passwords(contents: &str, key: &str) -> (r: Vec<(String, String)>)
    ensures
        pairs_view(r@) == opened_records(parse_records(contents@), normalized_key(key.spec_bytes())),
{
    open_records(contents, key).0
}

} // verus!
