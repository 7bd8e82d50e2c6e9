//! The catalog persistence codec: a catalog is stored as a single JSON-style
//! document holding its records in order, with stable field names. The
//! encoder and decoder are inverse to each other: decoding an encoded
//! catalog yields the catalog back, record for record and field for field.

use vstd::prelude::*;
use crate::library::catalog_of;
use crate::models::{BookFormat, BookMetadata, BookStorage, BookView, StorageView};
use crate::text::{chars_to_string, dec_rep, digit_char, push_dec, str_to_chars};

verus! {

// ---- the encoding, as a mathematical function ----

/// A character as it stands inside a quoted string: `"` and `\` are
/// preceded by a backslash, every other character stands as itself.
pub open spec fn esc_char(c: char) -> Seq<char> {
    if c == '"' || c == '\\' {
        seq!['\\', c]
    } else {
        seq![c]
    }
}

/// A character sequence as it stands inside a quoted string.
pub open spec fn esc(s: Seq<char>) -> Seq<char>
    decreases s.len(),
{
    if s.len() == 0 {
        s
    } else {
        esc_char(s[0]) + esc(s.skip(1))
    }
}

/// A quoted string.
pub open spec fn enc_str(s: Seq<char>) -> Seq<char> {
    seq!['"'] + esc(s) + seq!['"']
}

/// A format's label, quoted.
pub open spec fn enc_format(f: BookFormat) -> Seq<char> {
    match f {
        BookFormat::EPUB => "\"EPUB\""@,
        BookFormat::PDF => "\"PDF\""@,
        BookFormat::TXT => "\"TXT\""@,
    }
}

/// The storage field: its name tells the shape apart.
pub open spec fn enc_storage(st: StorageView) -> Seq<char> {
    match st {
        StorageView::FilePath(p) => "\"file_path\":"@ + enc_str(p),
        StorageView::Inline(d) => "\"file_data\":"@ + enc_str(d),
    }
}

/// An optional cover reference: `null` or a quoted string.
pub open spec fn enc_cover(c: Option<Seq<char>>) -> Seq<char> {
    match c {
        Option::None => "null"@,
        Option::Some(s) => enc_str(s),
    }
}

/// A record's closing fields: cover, progress counters, date, brace.
pub open spec fn enc_book_close(b: BookView) -> Seq<char> {
    ",\"cover_image\":"@ + enc_cover(b.cover_image) + ",\"last_read_position\":"@ + dec_rep(
        b.last_read_position as nat,
    ) + ",\"total_pages\":"@ + dec_rep(b.total_pages as nat) + ",\"added_date\":"@ + enc_str(
        b.added_date,
    ) + seq!['}']
}

/// A record's middle fields: file name, format, size, storage.
pub open spec fn enc_book_tail(b: BookView) -> Seq<char> {
    ",\"file_name\":"@ + enc_str(b.file_name) + ",\"format\":"@ + enc_format(b.format)
        + ",\"size\":"@ + dec_rep(b.size as nat) + seq![','] + enc_storage(b.storage)
        + enc_book_close(b)
}

/// One record, as an object with a fixed field order.
pub open spec fn enc_book(b: BookView) -> Seq<char> {
    "{\"id\":"@ + enc_str(b.id) + ",\"title\":"@ + enc_str(b.title) + ",\"author\":"@ + enc_str(
        b.author,
    ) + enc_book_tail(b)
}

/// The records, comma-separated.
pub open spec fn enc_books(cat: Seq<BookView>) -> Seq<char>
    decreases cat.len(),
{
    if cat.len() == 0 {
        Seq::<char>::empty()
    } else if cat.len() == 1 {
        enc_book(cat[0])
    } else {
        enc_book(cat[0]) + seq![','] + enc_books(cat.skip(1))
    }
}

/// The whole document: the records in brackets.
pub open spec fn enc_catalog(cat: Seq<BookView>) -> Seq<char> {
    seq!['['] + enc_books(cat) + seq![']']
}

// ---- the decoding, as a mathematical function ----

/// The value of a digit character, or a negative number for any other.
pub open spec fn digit_val(c: char) -> int {
    if c == '0' {
        0
    } else if c == '1' {
        1
    } else if c == '2' {
        2
    } else if c == '3' {
        3
    } else if c == '4' {
        4
    } else if c == '5' {
        5
    } else if c == '6' {
        6
    } else if c == '7' {
        7
    } else if c == '8' {
        8
    } else if c == '9' {
        9
    } else {
        -1
    }
}

pub open spec fn is_digit(c: char) -> bool {
    digit_val(c) >= 0
}

/// Consume an exact literal.
pub open spec fn p_lit(w: Seq<char>, lit: Seq<char>) -> Option<Seq<char>> {
    if lit.len() <= w.len() && w.take(lit.len() as int) == lit {
        Option::Some(w.skip(lit.len() as int))
    } else {
        Option::None
    }
}

/// Consume the rest of a quoted string, after its opening quote.
pub open spec fn p_str_body(w: Seq<char>, acc: Seq<char>) -> Option<(Seq<char>, Seq<char>)>
    decreases w.len(),
{
    if w.len() == 0 {
        Option::None
    } else if w[0] == '"' {
        Option::Some((acc, w.skip(1)))
    } else if w[0] == '\\' {
        if w.len() >= 2 {
            p_str_body(w.skip(2), acc.push(w[1]))
        } else {
            Option::None
        }
    } else {
        p_str_body(w.skip(1), acc.push(w[0]))
    }
}

/// Consume a quoted string.
pub open spec fn p_str(w: Seq<char>) -> Option<(Seq<char>, Seq<char>)> {
    if w.len() > 0 && w[0] == '"' {
        p_str_body(w.skip(1), Seq::<char>::empty())
    } else {
        Option::None
    }
}

/// Consume the digits at the front, accumulating their value.
pub open spec fn p_num_body(w: Seq<char>, acc: nat) -> (nat, Seq<char>)
    decreases w.len(),
{
    if w.len() > 0 && is_digit(w[0]) {
        p_num_body(w.skip(1), acc * 10 + digit_val(w[0]) as nat)
    } else {
        (acc, w)
    }
}

/// Consume a decimal number that fits a `u64`.
pub open spec fn p_num(w: Seq<char>) -> Option<(nat, Seq<char>)> {
    if w.len() > 0 && is_digit(w[0]) {
        let r = p_num_body(w, 0);
        if r.0 <= u64::MAX {
            Option::Some(r)
        } else {
            Option::None
        }
    } else {
        Option::None
    }
}

/// Consume a quoted format label.
pub open spec fn p_format(w: Seq<char>) -> Option<(BookFormat, Seq<char>)> {
    if p_lit(w, "\"EPUB\""@) is Some {
        Option::Some((BookFormat::EPUB, p_lit(w, "\"EPUB\""@).unwrap()))
    } else if p_lit(w, "\"PDF\""@) is Some {
        Option::Some((BookFormat::PDF, p_lit(w, "\"PDF\""@).unwrap()))
    } else if p_lit(w, "\"TXT\""@) is Some {
        Option::Some((BookFormat::TXT, p_lit(w, "\"TXT\""@).unwrap()))
    } else {
        Option::None
    }
}

/// Consume a storage field, telling the shape apart by its name.
pub open spec fn p_storage(w: Seq<char>) -> Option<(StorageView, Seq<char>)> {
    if p_lit(w, "\"file_path\":"@) is Some {
        match p_str(p_lit(w, "\"file_path\":"@).unwrap()) {
            Option::Some(pr) => Option::Some((StorageView::FilePath(pr.0), pr.1)),
            Option::None => Option::None,
        }
    } else if p_lit(w, "\"file_data\":"@) is Some {
        match p_str(p_lit(w, "\"file_data\":"@).unwrap()) {
            Option::Some(pr) => Option::Some((StorageView::Inline(pr.0), pr.1)),
            Option::None => Option::None,
        }
    } else {
        Option::None
    }
}

/// Consume a cover field: `null` or a quoted string.
pub open spec fn p_cover(w: Seq<char>) -> Option<(Option<Seq<char>>, Seq<char>)> {
    if p_lit(w, "null"@) is Some {
        Option::Some((Option::None, p_lit(w, "null"@).unwrap()))
    } else {
        match p_str(w) {
            Option::Some(pr) => Option::Some((Option::Some(pr.0), pr.1)),
            Option::None => Option::None,
        }
    }
}

/// Consume one record.
pub open spec fn p_book(w: Seq<char>) -> Option<(BookView, Seq<char>)> {
    match p_lit(w, "{\"id\":"@) {
        Option::None => Option::None,
        Option::Some(w1) => match p_str(w1) {
            Option::None => Option::None,
            Option::Some((id, w2)) => match p_lit(w2, ",\"title\":"@) {
                Option::None => Option::None,
                Option::Some(w3) => match p_str(w3) {
                    Option::None => Option::None,
                    Option::Some((title, w4)) => match p_lit(w4, ",\"author\":"@) {
                        Option::None => Option::None,
                        Option::Some(w5) => match p_str(w5) {
                            Option::None => Option::None,
                            Option::Some((author, w6)) => p_book_tail(
                                w6,
                                id,
                                title,
                                author,
                            ),
                        },
                    },
                },
            },
        },
    }
}

/// Consume a record's remaining fields.
pub open spec fn p_book_tail(
    w6: Seq<char>,
    id: Seq<char>,
    title: Seq<char>,
    author: Seq<char>,
) -> Option<(BookView, Seq<char>)> {
    match p_lit(w6, ",\"file_name\":"@) {
        Option::None => Option::None,
        Option::Some(w7) => match p_str(w7) {
            Option::None => Option::None,
            Option::Some((file_name, w8)) => match p_lit(w8, ",\"format\":"@) {
                Option::None => Option::None,
                Option::Some(w9) => match p_format(w9) {
                    Option::None => Option::None,
                    Option::Some((format, w10)) => match p_lit(w10, ",\"size\":"@) {
                        Option::None => Option::None,
                        Option::Some(w11) => match p_num(w11) {
                            Option::None => Option::None,
                            Option::Some((size, w12)) => match p_lit(w12, seq![',']) {
                                Option::None => Option::None,
                                Option::Some(w13) => match p_storage(w13) {
                                    Option::None => Option::None,
                                    Option::Some((storage, w14)) => p_book_close(
                                        w14,
                                        id,
                                        title,
                                        author,
                                        file_name,
                                        format,
                                        size,
                                        storage,
                                    ),
                                },
                            },
                        },
                    },
                },
            },
        },
    }
}

/// Consume a record's closing fields.
pub open spec fn p_book_close(
    w14: Seq<char>,
    id: Seq<char>,
    title: Seq<char>,
    author: Seq<char>,
    file_name: Seq<char>,
    format: BookFormat,
    size: nat,
    storage: StorageView,
) -> Option<(BookView, Seq<char>)> {
    match p_lit(w14, ",\"cover_image\":"@) {
        Option::None => Option::None,
        Option::Some(w15) => match p_cover(w15) {
            Option::None => Option::None,
            Option::Some((cover, w16)) => match p_lit(w16, ",\"last_read_position\":"@) {
                Option::None => Option::None,
                Option::Some(w17) => match p_num(w17) {
                    Option::None => Option::None,
                    Option::Some((pos, w18)) => match p_lit(w18, ",\"total_pages\":"@) {
                        Option::None => Option::None,
                        Option::Some(w19) => match p_num(w19) {
                            Option::None => Option::None,
                            Option::Some((pages, w20)) => match p_lit(w20, ",\"added_date\":"@) {
                                Option::None => Option::None,
                                Option::Some(w21) => match p_str(w21) {
                                    Option::None => Option::None,
                                    Option::Some((added_date, w22)) => match p_lit(
                                        w22,
                                        seq!['}'],
                                    ) {
                                        Option::None => Option::None,
                                        Option::Some(w23) => if pos <= usize::MAX && pages
                                            <= usize::MAX {
                                            Option::Some(
                                                (
                                                    BookView {
                                                        id: id,
                                                        title: title,
                                                        author: author,
                                                        file_name: file_name,
                                                        format: format,
                                                        size: size as u64,
                                                        storage: storage,
                                                        cover_image: cover,
                                                        last_read_position: pos as usize,
                                                        total_pages: pages as usize,
                                                        added_date: added_date,
                                                    },
                                                    w23,
                                                ),
                                            )
                                        } else {
                                            Option::None
                                        },
                                    },
                                },
                            },
                        },
                    },
                },
            },
        },
    }
}

/// Consume comma-separated records; `fuel` bounds the recursion and any
/// value at least the record count is enough.
pub open spec fn p_books(w: Seq<char>, fuel: nat) -> Option<(Seq<BookView>, Seq<char>)>
    decreases fuel,
{
    if fuel == 0 {
        Option::None
    } else {
        match p_book(w) {
            Option::None => Option::None,
            Option::Some((b, rest)) => if rest.len() > 0 && rest[0] == ',' {
                match p_books(rest.skip(1), (fuel - 1) as nat) {
                    Option::None => Option::None,
                    Option::Some((bs, r2)) => Option::Some((seq![b] + bs, r2)),
                }
            } else {
                Option::Some((seq![b], rest))
            },
        }
    }
}

/// The catalog a document holds, if it is well-formed; the whole document
/// must be consumed.
pub open spec fn p_catalog(doc: Seq<char>) -> Option<Seq<BookView>> {
    match p_lit(doc, seq!['[']) {
        Option::None => Option::None,
        Option::Some(w) => if w == seq![']'] {
            Option::Some(Seq::<BookView>::empty())
        } else {
            match p_books(w, w.len()) {
                Option::None => Option::None,
                Option::Some((bs, r)) => if r == seq![']'] {
                    Option::Some(bs)
                } else {
                    Option::None
                },
            }
        },
    }
}

// ---- round trip: decoding inverts encoding ----

proof fn lemma_esc_concat(a: Seq<char>, b: Seq<char>)
    ensures
        esc(a + b) == esc(a) + esc(b),
    decreases a.len(),
{
    if a.len() == 0 {
        assert(a + b =~= b);
        assert(esc(a) + esc(b) =~= esc(b));
    } else {
        assert((a + b).skip(1) =~= a.skip(1) + b);
        lemma_esc_concat(a.skip(1), b);
        assert((a + b)[0] == a[0]);
        assert(esc(a + b) =~= esc(a) + esc(b));
    }
}

proof fn lemma_p_lit_enc(lit: Seq<char>, rest: Seq<char>)
    ensures
        p_lit(lit + rest, lit) == Option::Some(rest),
{
    let w = lit + rest;
    assert(w.take(lit.len() as int) =~= lit);
    assert(w.skip(lit.len() as int) =~= rest);
}

proof fn lemma_p_str_body_enc(s: Seq<char>, acc: Seq<char>, rest: Seq<char>)
    ensures
        p_str_body(esc(s) + seq!['"'] + rest, acc) == Option::Some((acc + s, rest)),
    decreases s.len(),
{
    let w = esc(s) + seq!['"'] + rest;
    if s.len() == 0 {
        assert(esc(s) =~= Seq::<char>::empty());
        assert(w =~= seq!['"'] + rest);
        assert(w[0] == '"');
        assert(w.skip(1) =~= rest);
        assert(acc + s =~= acc);
    } else {
        let c = s[0];
        let s1 = s.skip(1);
        assert(esc(s) == esc_char(c) + esc(s1));
        if c == '"' || c == '\\' {
            assert(esc(s)[0] == '\\');
            assert(esc(s)[1] == c);
            assert(w[0] == '\\');
            assert(w[1] == c);
            assert(w.len() >= 2);
            assert(w.skip(2) =~= esc(s1) + seq!['"'] + rest);
            lemma_p_str_body_enc(s1, acc.push(c), rest);
            assert(acc.push(c) + s1 =~= acc + s);
        } else {
            assert(esc(s)[0] == c);
            assert(w[0] == c);
            assert(w.skip(1) =~= esc(s1) + seq!['"'] + rest);
            lemma_p_str_body_enc(s1, acc.push(c), rest);
            assert(acc.push(c) + s1 =~= acc + s);
        }
    }
}

proof fn lemma_p_str_enc(s: Seq<char>, rest: Seq<char>)
    ensures
        p_str(enc_str(s) + rest) == Option::Some((s, rest)),
{
    let w = enc_str(s) + rest;
    assert(w[0] == '"');
    assert(w.skip(1) =~= esc(s) + seq!['"'] + rest);
    lemma_p_str_body_enc(s, Seq::<char>::empty(), rest);
    assert(Seq::<char>::empty() + s =~= s);
}

spec fn pow10(k: nat) -> nat
    decreases k,
{
    if k == 0 {
        1
    } else {
        10 * pow10((k - 1) as nat)
    }
}

proof fn lemma_digit_char_val(d: nat)
    requires
        d < 10,
    ensures
        digit_val(digit_char(d)) == d,
{
}

proof fn lemma_dec_rep_digits(n: nat)
    ensures
        dec_rep(n).len() >= 1,
        forall|k: int| 0 <= k < dec_rep(n).len() ==> is_digit(#[trigger] dec_rep(n)[k]),
    decreases n,
{
    if n < 10 {
        lemma_digit_char_val(n);
    } else {
        lemma_dec_rep_digits(n / 10);
        lemma_digit_char_val(n % 10);
        assert forall|k: int| 0 <= k < dec_rep(n).len() implies is_digit(
            #[trigger] dec_rep(n)[k],
        ) by {
            if k < dec_rep(n / 10).len() {
                assert(dec_rep(n)[k] == dec_rep(n / 10)[k]);
            } else {
                assert(dec_rep(n)[k] == digit_char(n % 10));
            }
        }
    }
}

proof fn lemma_p_num_body_enc(n: nat, acc: nat, rest: Seq<char>)
    ensures
        p_num_body(dec_rep(n) + rest, acc) == p_num_body(
            rest,
            acc * pow10(dec_rep(n).len()) + n,
        ),
    decreases n,
{
    let w = dec_rep(n) + rest;
    if n < 10 {
        lemma_digit_char_val(n);
        assert(w[0] == digit_char(n));
        assert(w.skip(1) =~= rest);
        assert(pow10(0) == 1);
        assert(pow10(1) == 10);
    } else {
        let d = n % 10;
        let hi = n / 10;
        lemma_digit_char_val(d);
        let mid = seq![digit_char(d)] + rest;
        assert(dec_rep(n) =~= dec_rep(hi) + seq![digit_char(d)]);
        assert(w =~= dec_rep(hi) + mid);
        lemma_p_num_body_enc(hi, acc, mid);
        assert(mid[0] == digit_char(d));
        assert(mid.skip(1) =~= rest);
        let a1 = acc * pow10(dec_rep(hi).len()) + hi;
        assert(p_num_body(mid, a1) == p_num_body(rest, a1 * 10 + d));
        assert(dec_rep(n).len() == dec_rep(hi).len() + 1);
        assert(pow10(dec_rep(hi).len() + 1) == 10 * pow10(dec_rep(hi).len()));
        assert(a1 * 10 + d == acc * (10 * pow10(dec_rep(hi).len())) + n) by (nonlinear_arith)
            requires
                a1 == acc * pow10(dec_rep(hi).len()) + hi,
                hi == n / 10,
                d == n % 10,
                n >= 10,
        {
        }
    }
}

proof fn lemma_p_num_enc(n: u64, rest: Seq<char>)
    requires
        rest.len() == 0 || !is_digit(rest[0]),
    ensures
        p_num(dec_rep(n as nat) + rest) == Option::Some(((n as nat), rest)),
{
    lemma_dec_rep_digits(n as nat);
    let w = dec_rep(n as nat) + rest;
    assert(w[0] == dec_rep(n as nat)[0]);
    lemma_p_num_body_enc(n as nat, 0, rest);
    assert(0 * pow10(dec_rep(n as nat).len()) == 0) by (nonlinear_arith) {
    }
}

proof fn lemma_p_format_enc(f: BookFormat, rest: Seq<char>)
    ensures
        p_format(enc_format(f) + rest) == Option::Some((f, rest)),
{
    reveal_strlit("\"EPUB\"");
    reveal_strlit("\"PDF\"");
    reveal_strlit("\"TXT\"");
    let w = enc_format(f) + rest;
    match f {
        BookFormat::EPUB => {
            lemma_p_lit_enc("\"EPUB\""@, rest);
        },
        BookFormat::PDF => {
            assert(p_lit(w, "\"EPUB\""@) is None) by {
                if "\"EPUB\""@.len() <= w.len() && w.take("\"EPUB\""@.len() as int) == "\"EPUB\""@ {
                    assert(w.take("\"EPUB\""@.len() as int)[1] == w[1]);
                    assert(w[1] == "\"PDF\""@[1]);
                }
            }
            lemma_p_lit_enc("\"PDF\""@, rest);
        },
        BookFormat::TXT => {
            assert(p_lit(w, "\"EPUB\""@) is None) by {
                if "\"EPUB\""@.len() <= w.len() && w.take("\"EPUB\""@.len() as int) == "\"EPUB\""@ {
                    assert(w.take("\"EPUB\""@.len() as int)[1] == w[1]);
                    assert(w[1] == "\"TXT\""@[1]);
                }
            }
            assert(p_lit(w, "\"PDF\""@) is None) by {
                if "\"PDF\""@.len() <= w.len() && w.take("\"PDF\""@.len() as int) == "\"PDF\""@ {
                    assert(w.take("\"PDF\""@.len() as int)[1] == w[1]);
                    assert(w[1] == "\"TXT\""@[1]);
                }
            }
            lemma_p_lit_enc("\"TXT\""@, rest);
        },
    }
}

proof fn lemma_p_storage_enc(st: StorageView, rest: Seq<char>)
    ensures
        p_storage(enc_storage(st) + rest) == Option::Some((st, rest)),
{
    reveal_strlit("\"file_path\":");
    reveal_strlit("\"file_data\":");
    let w = enc_storage(st) + rest;
    match st {
        StorageView::FilePath(p) => {
            assert(w =~= "\"file_path\":"@ + (enc_str(p) + rest));
            lemma_p_lit_enc("\"file_path\":"@, enc_str(p) + rest);
            lemma_p_str_enc(p, rest);
        },
        StorageView::Inline(d) => {
            assert(w =~= "\"file_data\":"@ + (enc_str(d) + rest));
            assert(p_lit(w, "\"file_path\":"@) is None) by {
                if "\"file_path\":"@.len() <= w.len() && w.take("\"file_path\":"@.len() as int)
                    == "\"file_path\":"@ {
                    assert(w.take("\"file_path\":"@.len() as int)[6] == w[6]);
                    assert(w[6] == "\"file_data\":"@[6]);
                }
            }
            lemma_p_lit_enc("\"file_data\":"@, enc_str(d) + rest);
            lemma_p_str_enc(d, rest);
        },
    }
}

proof fn lemma_p_cover_enc(c: Option<Seq<char>>, rest: Seq<char>)
    ensures
        p_cover(enc_cover(c) + rest) == Option::Some((c, rest)),
{
    reveal_strlit("null");
    let w = enc_cover(c) + rest;
    match c {
        Option::None => {
            lemma_p_lit_enc("null"@, rest);
        },
        Option::Some(s) => {
            assert(w =~= enc_str(s) + rest);
            assert(p_lit(w, "null"@) is None) by {
                if "null"@.len() <= w.len() && w.take("null"@.len() as int) == "null"@ {
                    assert(w.take("null"@.len() as int)[0] == w[0]);
                    assert(w[0] == '"');
                }
            }
            lemma_p_str_enc(s, rest);
        },
    }
}

proof fn lemma_p_book_close_enc(b: BookView, rest: Seq<char>)
    ensures
        p_book_close(
            enc_book_close(b) + rest,
            b.id,
            b.title,
            b.author,
            b.file_name,
            b.format,
            b.size as nat,
            b.storage,
        ) == Option::Some((b, rest)),
{
    reveal_strlit(",\"cover_image\":");
    reveal_strlit(",\"last_read_position\":");
    reveal_strlit(",\"total_pages\":");
    reveal_strlit(",\"added_date\":");
    let w = enc_book_close(b) + rest;
    let t11 = seq!['}'] + rest;
    let t10 = enc_str(b.added_date) + t11;
    let t9 = ",\"added_date\":"@ + t10;
    let t8 = dec_rep(b.total_pages as nat) + t9;
    let t7 = ",\"total_pages\":"@ + t8;
    let t6 = dec_rep(b.last_read_position as nat) + t7;
    let t5 = ",\"last_read_position\":"@ + t6;
    let t4 = enc_cover(b.cover_image) + t5;
    assert(w =~= ",\"cover_image\":"@ + t4);
    lemma_p_lit_enc(",\"cover_image\":"@, t4);
    lemma_p_cover_enc(b.cover_image, t5);
    lemma_p_lit_enc(",\"last_read_position\":"@, t6);
    assert(t7[0] == ',');
    lemma_p_num_enc(b.last_read_position as u64, t7);
    lemma_p_lit_enc(",\"total_pages\":"@, t8);
    assert(t9[0] == ',');
    lemma_p_num_enc(b.total_pages as u64, t9);
    lemma_p_lit_enc(",\"added_date\":"@, t10);
    lemma_p_str_enc(b.added_date, t11);
    lemma_p_lit_enc(seq!['}'], rest);
    assert(p_book_close(
        w,
        b.id,
        b.title,
        b.author,
        b.file_name,
        b.format,
        b.size as nat,
        b.storage,
    ) matches Option::Some(pr) && pr.1 == rest && pr.0 =~= b);
}

#[verifier::rlimit(100)]
proof fn lemma_p_book_tail_enc(b: BookView, rest: Seq<char>)
    ensures
        p_book_tail(enc_book_tail(b) + rest, b.id, b.title, b.author) == Option::Some((b, rest)),
{
    reveal_strlit(",\"file_name\":");
    reveal_strlit(",\"format\":");
    reveal_strlit(",\"size\":");
    let w = enc_book_tail(b) + rest;
    let t3 = enc_book_close(b) + rest;
    let t2 = enc_storage(b.storage) + t3;
    let t2b = seq![','] + t2;
    let t1 = dec_rep(b.size as nat) + t2b;
    let t0 = ",\"size\":"@ + t1;
    let s5 = enc_format(b.format) + t0;
    let s4 = ",\"format\":"@ + s5;
    let s3 = enc_str(b.file_name) + s4;
    assert(w =~= ",\"file_name\":"@ + s3);
    lemma_p_lit_enc(",\"file_name\":"@, s3);
    lemma_p_str_enc(b.file_name, s4);
    lemma_p_lit_enc(",\"format\":"@, s5);
    lemma_p_format_enc(b.format, t0);
    lemma_p_lit_enc(",\"size\":"@, t1);
    assert(t2b[0] == ',');
    assert(!is_digit(','));
    lemma_p_num_enc(b.size, t2b);
    assert(t2b =~= seq![','] + t2);
    lemma_p_lit_enc(seq![','], t2);
    lemma_p_storage_enc(b.storage, t3);
    lemma_p_book_close_enc(b, rest);
}

proof fn lemma_p_book_enc(b: BookView, rest: Seq<char>)
    ensures
        p_book(enc_book(b) + rest) == Option::Some((b, rest)),
{
    reveal_strlit("{\"id\":");
    reveal_strlit(",\"title\":");
    reveal_strlit(",\"author\":");
    let w = enc_book(b) + rest;
    let s2 = enc_book_tail(b) + rest;
    let s1 = enc_str(b.author) + s2;
    let s0 = ",\"author\":"@ + s1;
    let r1 = enc_str(b.title) + s0;
    let r0 = ",\"title\":"@ + r1;
    let q1 = enc_str(b.id) + r0;
    assert(w =~= "{\"id\":"@ + q1);
    lemma_p_lit_enc("{\"id\":"@, q1);
    lemma_p_str_enc(b.id, r0);
    lemma_p_lit_enc(",\"title\":"@, r1);
    lemma_p_str_enc(b.title, s0);
    lemma_p_lit_enc(",\"author\":"@, s1);
    lemma_p_str_enc(b.author, s2);
    lemma_p_book_tail_enc(b, rest);
}

proof fn lemma_enc_book_len(b: BookView)
    ensures
        enc_book(b).len() >= 1,
        enc_book(b)[0] == '{',
{
    reveal_strlit("{\"id\":");
    assert(enc_book(b)[0] == "{\"id\":"@[0]);
}

proof fn lemma_enc_books_len(cat: Seq<BookView>)
    ensures
        enc_books(cat).len() >= cat.len(),
    decreases cat.len(),
{
    if cat.len() == 1 {
        lemma_enc_book_len(cat[0]);
    } else if cat.len() > 1 {
        lemma_enc_book_len(cat[0]);
        lemma_enc_books_len(cat.skip(1));
    }
}

#[verifier::rlimit(100)]
proof fn lemma_p_books_enc(cat: Seq<BookView>, rest: Seq<char>, fuel: nat)
    requires
        cat.len() >= 1,
        fuel >= cat.len(),
        rest.len() == 0 || rest[0] != ',',
    ensures
        p_books(enc_books(cat) + rest, fuel) == Option::Some((cat, rest)),
    decreases cat.len(),
{
    if cat.len() == 1 {
        assert(enc_books(cat) == enc_book(cat[0]));
        lemma_p_book_enc(cat[0], rest);
        assert(seq![cat[0]] =~= cat);
    } else {
        let w = enc_books(cat) + rest;
        let rest1 = seq![','] + (enc_books(cat.skip(1)) + rest);
        assert(w =~= enc_book(cat[0]) + rest1);
        lemma_p_book_enc(cat[0], rest1);
        assert(rest1[0] == ',');
        assert(rest1.skip(1) =~= enc_books(cat.skip(1)) + rest);
        lemma_p_books_enc(cat.skip(1), rest, (fuel - 1) as nat);
        assert(seq![cat[0]] + cat.skip(1) =~= cat);
    }
}

/// The persistence round trip: decoding an encoded catalog yields the
/// catalog back, equal in content and order.
pub proof fn lemma_catalog_round_trip(cat: Seq<BookView>)
    ensures
        p_catalog(enc_catalog(cat)) == Option::Some(cat),
{
    let doc = enc_catalog(cat);
    let w = enc_books(cat) + seq![']'];
    assert(doc =~= seq!['['] + w);
    lemma_p_lit_enc(seq!['['], w);
    if cat.len() == 0 {
        assert(w =~= seq![']']);
    } else {
        lemma_enc_book_len(cat[0]);
        lemma_enc_books_len(cat);
        assert(enc_books(cat)[0] == '{') by {
            if cat.len() == 1 {
                assert(enc_books(cat) == enc_book(cat[0]));
            } else {
                assert(enc_books(cat)[0] == enc_book(cat[0])[0]);
            }
        }
        assert(w[0] == '{');
        assert(w != seq![']']);
        assert(seq![']'].len() == 1 && seq![']'][0] == ']');
        lemma_p_books_enc(cat, seq![']'], w.len());
    }
}

// ---- the encoder ----

fn emit_lit(out: &mut Vec<char>, lit: &str)
    ensures
        final(out)@ =~= old(out)@ + lit@,
{
    let mut v = str_to_chars(lit);
    out.append(&mut v);
}

fn emit_str(out: &mut Vec<char>, s: &String)
    ensures
        final(out)@ =~= old(out)@ + enc_str(s@),
{
    out.push('"');
    let v = str_to_chars(s.as_str());
    let mut i: usize = 0;
    while i < v.len()
        invariant
            i <= v.len(),
            v@ =~= s@,
            out@ =~= old(out)@ + seq!['"'] + esc(v@.take(i as int)),
        decreases v.len() - i,
    {
        let c = v[i];
        if c == '"' || c == '\\' {
            out.push('\\');
            out.push(c);
        } else {
            out.push(c);
        }
        i = i + 1;
        proof {
            lemma_esc_concat(v@.take(i - 1), seq![v@[i - 1]]);
            assert(v@.take(i as int) =~= v@.take(i - 1) + seq![v@[i - 1]]);
            assert(esc(seq![v@[i - 1]]) =~= esc_char(v@[i - 1])) by {
                assert(seq![v@[i - 1]].skip(1) =~= Seq::<char>::empty());
                assert(esc(Seq::<char>::empty()) =~= Seq::<char>::empty());
            }
            assert(out@ =~= old(out)@ + seq!['"'] + esc(v@.take(i as int)));
        }
    }
    out.push('"');
    proof {
        assert(v@.take(v@.len() as int) =~= v@);
        assert(final(out)@ =~= old(out)@ + enc_str(s@));
    }
}

fn emit_book_close(out: &mut Vec<char>, b: &BookMetadata)
    ensures
        final(out)@ =~= old(out)@ + enc_book_close(b@),
{
    emit_lit(out, ",\"cover_image\":");
    match &b.cover_image {
        Option::None => emit_lit(out, "null"),
        Option::Some(c) => emit_str(out, c),
    }
    emit_lit(out, ",\"last_read_position\":");
    push_dec(out, b.last_read_position as u64);
    emit_lit(out, ",\"total_pages\":");
    push_dec(out, b.total_pages as u64);
    emit_lit(out, ",\"added_date\":");
    emit_str(out, &b.added_date);
    out.push('}');
    proof {
        assert(b.last_read_position as u64 as nat == b.last_read_position as nat);
        assert(b.total_pages as u64 as nat == b.total_pages as nat);
        assert(final(out)@ =~= old(out)@ + enc_book_close(b@));
    }
}

fn emit_book_tail(out: &mut Vec<char>, b: &BookMetadata)
    ensures
        final(out)@ =~= old(out)@ + enc_book_tail(b@),
{
    emit_lit(out, ",\"file_name\":");
    emit_str(out, &b.file_name);
    emit_lit(out, ",\"format\":");
    match b.format {
        BookFormat::EPUB => emit_lit(out, "\"EPUB\""),
        BookFormat::PDF => emit_lit(out, "\"PDF\""),
        BookFormat::TXT => emit_lit(out, "\"TXT\""),
    }
    emit_lit(out, ",\"size\":");
    push_dec(out, b.size);
    out.push(',');
    match &b.storage {
        BookStorage::FilePath(p) => {
            emit_lit(out, "\"file_path\":");
            emit_str(out, p);
        },
        BookStorage::Inline(d) => {
            emit_lit(out, "\"file_data\":");
            emit_str(out, d);
        },
    }
    emit_book_close(out, b);
    proof {
        assert(final(out)@ =~= old(out)@ + enc_book_tail(b@));
    }
}

fn emit_book(out: &mut Vec<char>, b: &BookMetadata)
    ensures
        final(out)@ =~= old(out)@ + enc_book(b@),
{
    emit_lit(out, "{\"id\":");
    emit_str(out, &b.id);
    emit_lit(out, ",\"title\":");
    emit_str(out, &b.title);
    emit_lit(out, ",\"author\":");
    emit_str(out, &b.author);
    emit_book_tail(out, b);
    proof {
        assert(final(out)@ =~= old(out)@ + enc_book(b@));
    }
}

proof fn lemma_enc_books_snoc(cat: Seq<BookView>)
    requires
        cat.len() >= 2,
    ensures
        enc_books(cat) == enc_books(cat.drop_last()) + seq![','] + enc_book(cat.last()),
    decreases cat.len(),
{
    if cat.len() == 2 {
        assert(cat.skip(1) =~= seq![cat[1]]);
        assert(cat.drop_last() =~= seq![cat[0]]);
        assert(enc_books(seq![cat[1]]) == enc_book(cat[1]));
        assert(enc_books(seq![cat[0]]) == enc_book(cat[0]));
        assert(enc_books(cat) == enc_book(cat[0]) + seq![','] + enc_books(cat.skip(1)));
        assert(enc_books(cat) =~= enc_books(cat.drop_last()) + seq![','] + enc_book(cat.last()));
    } else {
        lemma_enc_books_snoc(cat.skip(1));
        assert(cat.skip(1).drop_last() =~= cat.drop_last().skip(1));
        assert(cat.skip(1).last() == cat.last());
        assert(cat.drop_last()[0] == cat[0]);
        assert(cat.drop_last().len() >= 2);
        assert(enc_books(cat) == enc_book(cat[0]) + seq![','] + enc_books(cat.skip(1)));
        assert(enc_books(cat.drop_last()) == enc_book(cat[0]) + seq![','] + enc_books(
            cat.drop_last().skip(1),
        ));
        assert(enc_books(cat) =~= enc_books(cat.drop_last()) + seq![','] + enc_book(cat.last()));
    }
}

/// The catalog document holding the given records, in order.
pub fn encode_catalog(books: &Vec<BookMetadata>) -> (r: String)
    ensures
        r@ == enc_catalog(catalog_of(books@)),
{
    let ghost cat = catalog_of(books@);
    let mut out: Vec<char> = Vec::new();
    out.push('[');
    let mut i: usize = 0;
    while i < books.len()
        invariant
            i <= books.len(),
            cat == catalog_of(books@),
            out@ =~= seq!['['] + enc_books(cat.take(i as int)),
        decreases books.len() - i,
    {
        if i > 0 {
            out.push(',');
        }
        emit_book(&mut out, &books[i]);
        i = i + 1;
        proof {
            if i == 1 {
                assert(cat.take(1).len() == 1);
                assert(cat.take(1)[0] == cat[0]);
                assert(enc_books(cat.take(1)) == enc_book(cat[0]));
            } else {
                assert(cat.take(i as int).drop_last() =~= cat.take(i - 1));
                assert(cat.take(i as int).last() == cat[i - 1]);
                lemma_enc_books_snoc(cat.take(i as int));
            }
            assert(out@ =~= seq!['['] + enc_books(cat.take(i as int)));
        }
    }
    out.push(']');
    proof {
        assert(cat.take(cat.len() as int) =~= cat);
        assert(out@ =~= enc_catalog(cat));
    }
    chars_to_string(&out)
}

// ---- the decoder ----

fn char_digit(c: char) -> (r: Option<u64>)
    ensures
        match r {
            Option::Some(d) => is_digit(c) && digit_val(c) == d as int,
            Option::None => !is_digit(c),
        },
{
    match c {
        '0' => Option::Some(0u64),
        '1' => Option::Some(1u64),
        '2' => Option::Some(2u64),
        '3' => Option::Some(3u64),
        '4' => Option::Some(4u64),
        '5' => Option::Some(5u64),
        '6' => Option::Some(6u64),
        '7' => Option::Some(7u64),
        '8' => Option::Some(8u64),
        '9' => Option::Some(9u64),
        _ => Option::None,
    }
}

fn parse_lit(v: &Vec<char>, i: usize, lit: &str) -> (r: Option<usize>)
    requires
        i <= v@.len(),
    ensures
        match r {
            Option::Some(j) => i <= j <= v@.len() && j == i + lit@.len() && p_lit(
                v@.skip(i as int),
                lit@,
            ) == Option::Some(v@.skip(j as int)),
            Option::None => p_lit(v@.skip(i as int), lit@) is None,
        },
{
    let lc = str_to_chars(lit);
    let n = lc.len();
    let vn = v.len();
    if n > vn - i {
        proof {
            assert(lit@.len() > v@.skip(i as int).len());
        }
        return Option::None;
    }
    let mut k: usize = 0;
    while k < n
        invariant
            k <= n,
            n == lit@.len(),
            lc@ =~= lit@,
            i + n <= v@.len(),
            vn == v@.len(),
            forall|t: int| 0 <= t < k ==> v@[i + t] == lit@[t],
        decreases n - k,
    {
        let idx = i + k;
        if v[idx] != lc[k] {
            proof {
                assert(v@.skip(i as int).take(n as int)[k as int] == v@[i + k]);
            }
            return Option::None;
        }
        k = k + 1;
    }
    proof {
        assert(v@.skip(i as int).take(n as int) =~= lit@);
        assert(v@.skip(i as int).skip(n as int) =~= v@.skip((i + n) as int));
    }
    Option::Some(i + n)
}

fn parse_string(v: &Vec<char>, i: usize) -> (r: Option<(String, usize)>)
    requires
        i <= v@.len(),
    ensures
        match r {
            Option::Some(pr) => i < pr.1 <= v@.len() && p_str(v@.skip(i as int)) == Option::Some(
                (pr.0@, v@.skip(pr.1 as int)),
            ),
            Option::None => p_str(v@.skip(i as int)) is None,
        },
{
    let n = v.len();
    if i >= n {
        return Option::None;
    }
    if v[i] != '"' {
        proof {
            assert(v@.skip(i as int)[0] == v@[i as int]);
        }
        return Option::None;
    }
    proof {
        assert(v@.skip(i as int)[0] == '"');
        assert(v@.skip(i as int).skip(1) =~= v@.skip(i + 1));
    }
    let mut acc: Vec<char> = Vec::new();
    let mut k: usize = i + 1;
    loop
        invariant
            i + 1 <= k <= n,
            n == v@.len(),
            p_str(v@.skip(i as int)) == p_str_body(v@.skip(k as int), acc@),
        decreases n - k,
    {
        if k >= n {
            proof {
                assert(v@.skip(k as int).len() == 0);
            }
            return Option::None;
        }
        let c = v[k];
        proof {
            assert(v@.skip(k as int)[0] == c);
        }
        if c == '"' {
            proof {
                assert(v@.skip(k as int).skip(1) =~= v@.skip(k + 1));
            }
            let s = chars_to_string(&acc);
            return Option::Some((s, k + 1));
        }
        if c == '\\' {
            if k + 1 >= n {
                proof {
                    assert(v@.skip(k as int).len() == 1);
                }
                return Option::None;
            }
            let c2 = v[k + 1];
            acc.push(c2);
            proof {
                assert(v@.skip(k as int)[1] == c2);
                assert(v@.skip(k as int).skip(2) =~= v@.skip(k + 2));
            }
            k = k + 2;
        } else {
            acc.push(c);
            proof {
                assert(v@.skip(k as int).skip(1) =~= v@.skip(k + 1));
            }
            k = k + 1;
        }
    }
}

proof fn lemma_p_num_body_min(w: Seq<char>, a: nat)
    ensures
        p_num_body(w, a).0 >= a,
    decreases w.len(),
{
    if w.len() > 0 && is_digit(w[0]) {
        assert(a * 10 + digit_val(w[0]) as nat >= a) by (nonlinear_arith);
        lemma_p_num_body_min(w.skip(1), a * 10 + digit_val(w[0]) as nat);
    }
}

fn parse_num(v: &Vec<char>, i: usize) -> (r: Option<(u64, usize)>)
    requires
        i <= v@.len(),
    ensures
        match r {
            Option::Some(pr) => i < pr.1 <= v@.len() && p_num(v@.skip(i as int)) == Option::Some(
                ((pr.0 as nat), v@.skip(pr.1 as int)),
            ),
            Option::None => p_num(v@.skip(i as int)) is None,
        },
{
    let n = v.len();
    if i >= n {
        return Option::None;
    }
    let c0 = v[i];
    proof {
        assert(v@.skip(i as int)[0] == c0);
    }
    match char_digit(c0) {
        Option::None => {
            return Option::None;
        },
        Option::Some(_) => {},
    }
    let mut acc: u64 = 0;
    let mut k: usize = i;
    loop
        invariant
            i <= k <= n,
            n == v@.len(),
            i < n,
            is_digit(v@.skip(i as int)[0]),
            v@.skip(i as int).len() > 0,
            v@.skip(i as int)[0] == v@[i as int],
            p_num_body(v@.skip(i as int), 0) == p_num_body(v@.skip(k as int), acc as nat),
        decreases n - k,
    {
        if k >= n {
            proof {
                assert(v@.skip(k as int).len() == 0);
            }
            return Option::Some((acc, k));
        }
        let c = v[k];
        proof {
            assert(v@.skip(k as int)[0] == c);
        }
        match char_digit(c) {
            Option::None => {
                proof {
                    if k == i {
                        assert(is_digit(c));
                    }
                }
                return Option::Some((acc, k));
            },
            Option::Some(d) => {
                proof {
                    assert(v@.skip(k as int).skip(1) =~= v@.skip(k + 1));
                }
                let acc10 = match acc.checked_mul(10) {
                    Option::Some(x) => x,
                    Option::None => {
                        proof {
                            lemma_p_num_body_min(
                                v@.skip(k + 1),
                                (acc as nat) * 10 + digit_val(c) as nat,
                            );
                        }
                        return Option::None;
                    },
                };
                let acc2 = match acc10.checked_add(d) {
                    Option::Some(x) => x,
                    Option::None => {
                        proof {
                            lemma_p_num_body_min(
                                v@.skip(k + 1),
                                (acc as nat) * 10 + digit_val(c) as nat,
                            );
                        }
                        return Option::None;
                    },
                };
                acc = acc2;
                k = k + 1;
            },
        }
    }
}

fn parse_format(v: &Vec<char>, i: usize) -> (r: Option<(BookFormat, usize)>)
    requires
        i <= v@.len(),
    ensures
        match r {
            Option::Some(pr) => i < pr.1 <= v@.len() && p_format(v@.skip(i as int))
                == Option::Some((pr.0, v@.skip(pr.1 as int))),
            Option::None => p_format(v@.skip(i as int)) is None,
        },
{
    proof {
        reveal_strlit("\"EPUB\"");
        reveal_strlit("\"PDF\"");
        reveal_strlit("\"TXT\"");
    }
    match parse_lit(v, i, "\"EPUB\"") {
        Option::Some(j) => {
            return Option::Some((BookFormat::EPUB, j));
        },
        Option::None => {},
    }
    match parse_lit(v, i, "\"PDF\"") {
        Option::Some(j) => {
            return Option::Some((BookFormat::PDF, j));
        },
        Option::None => {},
    }
    match parse_lit(v, i, "\"TXT\"") {
        Option::Some(j) => {
            return Option::Some((BookFormat::TXT, j));
        },
        Option::None => {},
    }
    Option::None
}

fn parse_storage(v: &Vec<char>, i: usize) -> (r: Option<(BookStorage, usize)>)
    requires
        i <= v@.len(),
    ensures
        match r {
            Option::Some(pr) => i < pr.1 <= v@.len() && p_storage(v@.skip(i as int))
                == Option::Some((pr.0@, v@.skip(pr.1 as int))),
            Option::None => p_storage(v@.skip(i as int)) is None,
        },
{
    proof {
        reveal_strlit("\"file_path\":");
        reveal_strlit("\"file_data\":");
    }
    match parse_lit(v, i, "\"file_path\":") {
        Option::Some(j) => {
            return match parse_string(v, j) {
                Option::Some(pr) => Option::Some((BookStorage::FilePath(pr.0), pr.1)),
                Option::None => Option::None,
            };
        },
        Option::None => {},
    }
    match parse_lit(v, i, "\"file_data\":") {
        Option::Some(j) => {
            return match parse_string(v, j) {
                Option::Some(pr) => Option::Some((BookStorage::Inline(pr.0), pr.1)),
                Option::None => Option::None,
            };
        },
        Option::None => {},
    }
    Option::None
}

fn parse_cover(v: &Vec<char>, i: usize) -> (r: Option<(Option<String>, usize)>)
    requires
        i <= v@.len(),
    ensures
        match r {
            Option::Some(pr) => i < pr.1 <= v@.len() && p_cover(v@.skip(i as int)) == Option::Some(
                (
                    match pr.0 {
                        Option::Some(s) => Option::Some(s@),
                        Option::None => Option::None,
                    },
                    v@.skip(pr.1 as int),
                ),
            ),
            Option::None => p_cover(v@.skip(i as int)) is None,
        },
{
    proof {
        reveal_strlit("null");
    }
    match parse_lit(v, i, "null") {
        Option::Some(j) => {
            return Option::Some((Option::None, j));
        },
        Option::None => {},
    }
    match parse_string(v, i) {
        Option::Some(pr) => Option::Some((Option::Some(pr.0), pr.1)),
        Option::None => Option::None,
    }
}

#[verifier::rlimit(100)]
fn parse_book(v: &Vec<char>, i: usize) -> (r: Option<(BookMetadata, usize)>)
    requires
        i <= v@.len(),
    ensures
        match r {
            Option::Some(pr) => i < pr.1 <= v@.len() && p_book(v@.skip(i as int)) == Option::Some(
                (pr.0@, v@.skip(pr.1 as int)),
            ),
            Option::None => p_book(v@.skip(i as int)) is None,
        },
{
    proof {
        reveal_strlit("{\"id\":");
        reveal_strlit(",\"title\":");
        reveal_strlit(",\"author\":");
        reveal_strlit(",\"file_name\":");
        reveal_strlit(",\"format\":");
        reveal_strlit(",\"size\":");
        reveal_strlit(",");
        reveal_strlit(",\"cover_image\":");
        reveal_strlit(",\"last_read_position\":");
        reveal_strlit(",\"total_pages\":");
        reveal_strlit(",\"added_date\":");
        reveal_strlit("}");
        assert(","@ =~= seq![',']);
        assert("}"@ =~= seq!['}']);
    }
    let j1 = match parse_lit(v, i, "{\"id\":") {
        Option::Some(j) => j,
        Option::None => return Option::None,
    };
    let (id, j2) = match parse_string(v, j1) {
        Option::Some(p) => p,
        Option::None => return Option::None,
    };
    let j3 = match parse_lit(v, j2, ",\"title\":") {
        Option::Some(j) => j,
        Option::None => return Option::None,
    };
    let (title, j4) = match parse_string(v, j3) {
        Option::Some(p) => p,
        Option::None => return Option::None,
    };
    let j5 = match parse_lit(v, j4, ",\"author\":") {
        Option::Some(j) => j,
        Option::None => return Option::None,
    };
    let (author, j6) = match parse_string(v, j5) {
        Option::Some(p) => p,
        Option::None => return Option::None,
    };
    let j7 = match parse_lit(v, j6, ",\"file_name\":") {
        Option::Some(j) => j,
        Option::None => return Option::None,
    };
    let (file_name, j8) = match parse_string(v, j7) {
        Option::Some(p) => p,
        Option::None => return Option::None,
    };
    let j9 = match parse_lit(v, j8, ",\"format\":") {
        Option::Some(j) => j,
        Option::None => return Option::None,
    };
    let (format, j10) = match parse_format(v, j9) {
        Option::Some(p) => p,
        Option::None => return Option::None,
    };
    let j11 = match parse_lit(v, j10, ",\"size\":") {
        Option::Some(j) => j,
        Option::None => return Option::None,
    };
    let (size, j12) = match parse_num(v, j11) {
        Option::Some(p) => p,
        Option::None => return Option::None,
    };
    let j13 = match parse_lit(v, j12, ",") {
        Option::Some(j) => j,
        Option::None => return Option::None,
    };
    let (storage, j14) = match parse_storage(v, j13) {
        Option::Some(p) => p,
        Option::None => return Option::None,
    };
    let j15 = match parse_lit(v, j14, ",\"cover_image\":") {
        Option::Some(j) => j,
        Option::None => return Option::None,
    };
    let (cover, j16) = match parse_cover(v, j15) {
        Option::Some(p) => p,
        Option::None => return Option::None,
    };
    let j17 = match parse_lit(v, j16, ",\"last_read_position\":") {
        Option::Some(j) => j,
        Option::None => return Option::None,
    };
    let (pos64, j18) = match parse_num(v, j17) {
        Option::Some(p) => p,
        Option::None => return Option::None,
    };
    let j19 = match parse_lit(v, j18, ",\"total_pages\":") {
        Option::Some(j) => j,
        Option::None => return Option::None,
    };
    let (pages64, j20) = match parse_num(v, j19) {
        Option::Some(p) => p,
        Option::None => return Option::None,
    };
    let j21 = match parse_lit(v, j20, ",\"added_date\":") {
        Option::Some(j) => j,
        Option::None => return Option::None,
    };
    let (added_date, j22) = match parse_string(v, j21) {
        Option::Some(p) => p,
        Option::None => return Option::None,
    };
    let j23 = match parse_lit(v, j22, "}") {
        Option::Some(j) => j,
        Option::None => return Option::None,
    };
    if pos64 > usize::MAX as u64 {
        return Option::None;
    }
    if pages64 > usize::MAX as u64 {
        return Option::None;
    }
    let book = BookMetadata {
        id: id,
        title: title,
        author: author,
        file_name: file_name,
        format: format,
        size: size,
        storage: storage,
        cover_image: cover,
        last_read_position: pos64 as usize,
        total_pages: pages64 as usize,
        added_date: added_date,
    };
    proof {
        assert(p_book(v@.skip(i as int)) matches Option::Some(pr) && pr.0 =~= book@ && pr.1
            == v@.skip(j23 as int));
    }
    Option::Some((book, j23))
}

/// Records already decoded, set before a parse's remaining outcome.
pub open spec fn books_prepend(
    pre: Seq<BookView>,
    r: Option<(Seq<BookView>, Seq<char>)>,
) -> Option<(Seq<BookView>, Seq<char>)> {
    match r {
        Option::None => Option::None,
        Option::Some((bs, w)) => Option::Some((pre + bs, w)),
    }
}

/// The records a catalog document holds, or an error for a document the
/// grammar refuses.
#[verifier::rlimit(100)]
pub fn decode_catalog(doc: &str) -> (r: Result<Vec<BookMetadata>, String>)
    ensures
        match p_catalog(doc@) {
            Option::Some(cat) => r matches Result::Ok(bs) && catalog_of(bs@) =~= cat,
            Option::None => r matches Result::Err(m) && m@ == "Failed to parse library"@,
        },
{
    proof {
        reveal_strlit("Failed to parse library");
        reveal_strlit("[");
        assert("["@ =~= seq!['[']);
    }
    let v = str_to_chars(doc);
    let n = v.len();
    proof {
        assert(v@.skip(0) =~= doc@);
    }
    let j0 = match parse_lit(&v, 0, "[") {
        Option::Some(j) => j,
        Option::None => {
            return Result::Err(String::from_str("Failed to parse library"));
        },
    };
    if j0 == n {
        proof {
            assert(v@.skip(j0 as int).len() == 0);
        }
        return Result::Err(String::from_str("Failed to parse library"));
    }
    if v[j0] == ']' && j0 + 1 == n {
        proof {
            assert(v@.skip(j0 as int) =~= seq![']']);
        }
        let empty: Vec<BookMetadata> = Vec::new();
        proof {
            assert(catalog_of(empty@) =~= Seq::<BookView>::empty());
        }
        return Result::Ok(empty);
    }
    proof {
        assert(v@.skip(j0 as int) != seq![']']) by {
            if v@.skip(j0 as int) == seq![']'] {
                assert(v@.skip(j0 as int).len() == 1);
                assert(v@.skip(j0 as int)[0] == ']');
                assert(v@[j0 as int] == ']');
            }
        }
    }
    let ghost w0 = doc@.skip(j0 as int);
    let ghost fuel0 = w0.len();
    let mut books: Vec<BookMetadata> = Vec::new();
    let mut k: usize = j0;
    let ghost mut fuel: nat = fuel0;
    loop
        invariant
            j0 <= k <= n,
            n == v@.len(),
            v@ =~= doc@,
            w0 == doc@.skip(j0 as int),
            fuel0 == w0.len(),
            fuel >= n - k,
            w0 != seq![']'],
            p_lit(doc@, seq!['[']) == Option::Some(w0),
            books_prepend(catalog_of(books@), p_books(v@.skip(k as int), fuel)) == p_books(
                w0,
                fuel0,
            ),
        decreases n - k,
    {
        match parse_book(&v, k) {
            Option::None => {
                proof {
                    assert(p_books(v@.skip(k as int), fuel) is None);
                }
                return Result::Err(String::from_str("Failed to parse library"));
            },
            Option::Some((book, j)) => {
                let ghost bview = book@;
                let ghost pre = catalog_of(books@);
                proof {
                    assert(fuel > 0);
                }
                books.push(book);
                proof {
                    assert(catalog_of(books@) =~= pre + seq![bview]);
                }
                let mut cont = false;
                if j < n {
                    if v[j] == ',' {
                        cont = true;
                    }
                }
                if cont {
                    proof {
                        assert(v@.skip(j as int)[0] == ',');
                        assert(v@.skip(j as int).skip(1) =~= v@.skip(j + 1));
                        let inner = p_books(v@.skip(j + 1), (fuel - 1) as nat);
                        match inner {
                            Option::None => {},
                            Option::Some(pr2) => {
                                assert(pre + (seq![bview] + pr2.0) =~= (pre + seq![bview])
                                    + pr2.0);
                            },
                        }
                        fuel = (fuel - 1) as nat;
                    }
                    k = j + 1;
                } else {
                    proof {
                        assert(v@.skip(j as int).len() == 0 || v@.skip(j as int)[0] != ',');
                        assert(p_books(v@.skip(k as int), fuel) == Option::Some(
                            (seq![bview], v@.skip(j as int)),
                        ));
                        assert(p_books(w0, fuel0) == Option::Some(
                            (catalog_of(books@), v@.skip(j as int)),
                        ));
                    }
                    let mut closed = false;
                    if j < n {
                        if v[j] == ']' {
                            if j + 1 == n {
                                closed = true;
                            }
                        }
                    }
                    if closed {
                        proof {
                            assert(v@.skip(j as int) =~= seq![']']);
                        }
                        return Result::Ok(books);
                    } else {
                        proof {
                            assert(v@.skip(j as int) != seq![']']) by {
                                if v@.skip(j as int) == seq![']'] {
                                    assert(v@.skip(j as int).len() == 1);
                                    assert(v@.skip(j as int)[0] == ']');
                                    assert(v@[j as int] == ']');
                                }
                            }
                        }
                        return Result::Err(String::from_str("Failed to parse library"));
                    }
                }
            },
        }
    }
}

} // verus!
