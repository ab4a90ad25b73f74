//! Transfers and downloads as JSON, for user interfaces in other languages.

use vstd::prelude::*;
use vstd::string::*;
use crate::json::{
    arrays_are_read_back, in_turn, is_object, is_plain_key, json_text, key_mark, lemma_in_turn,
    lemma_is_object, lemma_key, object_text, object_texts, push_json, read_array, Scalar,
};
use crate::num::{dec, push_dec};
use crate::stats::{transfers_of, Direction, Transfer, TransferState};
use crate::text::join;

verus! {

/// A truth value in JSON.
pub open spec fn bool_text(b: bool) -> Seq<char> {
    if b {
        "true"@
    } else {
        "false"@
    }
}

fn push_bool(out: &mut String, b: bool)
    ensures
        final(out)@ == old(out)@ + bool_text(b),
{
    if b {
        out.append("true");
    } else {
        out.append("false");
    }
}

/// A transfer as JSON.
pub open spec fn transfer_json(t: Transfer) -> Seq<char> {
    "{\"id\":"@ + dec(t.id) + ",\"name\":"@ + json_text(t.name) + ",\"path\":"@ + json_text(t.path)
        + ",\"dir\":\""@ + (match t.direction {
        Direction::Upload => "up"@,
        Direction::Download => "down"@,
    }) + "\",\"done\":"@ + dec(t.done as nat) + ",\"total\":"@ + (match t.total {
        Some(n) => dec(n as nat),
        None => "null"@,
    }) + ",\"finished\":"@ + bool_text(t.finished) + ",\"ok\":"@ + bool_text(t.ok)
        + ",\"verified\":"@ + bool_text(t.verified) + ",\"fast\":"@ + bool_text(t.fast) + "}"@
}

fn one_transfer(t: &TransferState) -> (out: String)
    ensures
        out@ == transfer_json(t@),
{
    let mut out = "{\"id\":".to_owned();
    push_dec(&mut out, t.id);
    out.append(",\"name\":");
    push_json(&mut out, t.name.as_str());
    out.append(",\"path\":");
    push_json(&mut out, t.path.as_str());
    out.append(",\"dir\":\"");
    match t.direction {
        Direction::Upload => out.append("up"),
        Direction::Download => out.append("down"),
    }
    out.append("\",\"done\":");
    push_dec(&mut out, t.done);
    out.append(",\"total\":");
    match t.total {
        Some(n) => push_dec(&mut out, n),
        None => out.append("null"),
    }
    out.append(",\"finished\":");
    push_bool(&mut out, t.finished);
    out.append(",\"ok\":");
    push_bool(&mut out, t.ok);
    out.append(",\"verified\":");
    push_bool(&mut out, t.verified);
    out.append(",\"fast\":");
    push_bool(&mut out, t.fast);
    out.append("}");
    out
}

/// The JSON texts of transfers.
pub open spec fn transfer_jsons(l: Seq<Transfer>) -> Seq<Seq<char>> {
    l.map_values(|t: Transfer| transfer_json(t))
}

/// Transfers as a JSON array.
pub fn transfers_json(items: &[TransferState]) -> (r: String)
    ensures
        r@ == seq!['['] + join(transfer_jsons(transfers_of(items@)), seq![',']) + seq![']'],
{
    let mut s = String::new();
    s.push('[');
    let ghost l = transfer_jsons(transfers_of(items@));
    let mut i: usize = 0;
    assert(l.take(0) =~= Seq::<Seq<char>>::empty());
    assert(s@ =~= seq!['['] + join(l.take(0), seq![',']));
    while i < items.len()
        invariant
            i <= items@.len(),
            l == transfer_jsons(transfers_of(items@)),
            s@ == seq!['['] + join(l.take(i as int), seq![',']),
        decreases items@.len() - i,
    {
        let ghost before = s@;
        proof {
            let now = l.take(i + 1);
            assert(now.drop_last() =~= l.take(i as int));
            assert(now.last() == transfer_json(items@[i as int]@));
        }
        if i > 0 {
            s.push(',');
        }
        s.append(one_transfer(&items[i]).as_str());
        assert(s@ =~= seq!['['] + join(l.take(i + 1), seq![',']));
        i = i + 1;
    }
    assert(l.take(i as int) =~= l);
    s.push(']');
    assert(s@ =~= seq!['['] + join(l, seq![',']) + seq![']']);
    s
}

/// Where a download in the background stands.
pub enum GetStatus {
    /// There is no such download.
    BadHandle,
    /// It is running: bytes done, and the total.
    Running(u64, u64),
    /// It has ended well: the size, whether the fast lane carried it, whether it was verified, and
    /// the file's name.
    Done(u64, bool, bool, String),
    /// It has failed.
    Failed(String),
}

/// The status of a download as JSON.
pub open spec fn status_text(s: GetStatus) -> Seq<char> {
    match s {
        GetStatus::BadHandle => "{\"running\":false,\"ok\":false,\"error\":\"bad handle\"}"@,
        GetStatus::Running(done, total) => "{\"running\":true,\"done\":"@ + dec(done as nat)
            + ",\"total\":"@ + dec(total as nat) + "}"@,
        GetStatus::Done(total, fast, verified, name) => "{\"running\":false,\"ok\":true,\"done\":"@
            + dec(total as nat) + ",\"total\":"@ + dec(total as nat) + ",\"fast\":"@ + bool_text(
            fast,
        ) + ",\"verified\":"@ + bool_text(verified) + ",\"name\":"@ + json_text(name@) + "}"@,
        GetStatus::Failed(e) => "{\"running\":false,\"ok\":false,\"error\":"@ + json_text(e@)
            + "}"@,
    }
}

/// The status of a download as JSON.
pub fn status_json(s: &GetStatus) -> (r: String)
    ensures
        r@ == status_text(*s),
{
    let mut r = String::new();
    match s {
        GetStatus::BadHandle => {
            r.append("{\"running\":false,\"ok\":false,\"error\":\"bad handle\"}");
        },
        GetStatus::Running(done, total) => {
            r.append("{\"running\":true,\"done\":");
            push_dec(&mut r, *done);
            r.append(",\"total\":");
            push_dec(&mut r, *total);
            r.append("}");
        },
        GetStatus::Done(total, fast, verified, name) => {
            r.append("{\"running\":false,\"ok\":true,\"done\":");
            push_dec(&mut r, *total);
            r.append(",\"total\":");
            push_dec(&mut r, *total);
            r.append(",\"fast\":");
            push_bool(&mut r, *fast);
            r.append(",\"verified\":");
            push_bool(&mut r, *verified);
            r.append(",\"name\":");
            push_json(&mut r, name.as_str());
            r.append("}");
        },
        GetStatus::Failed(e) => {
            r.append("{\"running\":false,\"ok\":false,\"error\":");
            push_json(&mut r, e.as_str());
            r.append("}");
        },
    }
    assert(r@ =~= status_text(*s));
    r
}

// ---- Laws ----

/// What is told of a transfer.
pub open spec fn transfer_members(t: Transfer) -> Seq<(Seq<char>, Scalar)> {
    seq![
        ("id"@, Scalar::Number(t.id)),
        ("name"@, Scalar::Text(t.name)),
        ("path"@, Scalar::Text(t.path)),
        (
            "dir"@,
            Scalar::Text(
                if t.direction == Direction::Upload {
                    "up"@
                } else {
                    "down"@
                },
            ),
        ),
        ("done"@, Scalar::Number(t.done as nat)),
        (
            "total"@,
            match t.total {
                Some(n) => Scalar::Number(n as nat),
                None => Scalar::Null,
            },
        ),
        ("finished"@, Scalar::Flag(t.finished)),
        ("ok"@, Scalar::Flag(t.ok)),
        ("verified"@, Scalar::Flag(t.verified)),
        ("fast"@, Scalar::Flag(t.fast)),
    ]
}

proof fn lemma_direction(t: Seq<char>, d: Seq<char>, n: Seq<char>)
    requires
        json_text(d) == seq!['"'] + d + seq!['"'],
    ensures
        t + ",\"dir\":\""@ + d + "\",\"done\":"@ + n == t + ",\"dir\":"@ + json_text(d) + ",\"done\":"@
            + n,
{
    reveal_strlit(",\"dir\":\"");
    reveal_strlit(",\"dir\":");
    reveal_strlit("\",\"done\":");
    reveal_strlit(",\"done\":");
    assert(",\"dir\":\""@ =~= ",\"dir\":"@ + seq!['"']);
    assert("\",\"done\":"@ =~= seq!['"'] + ",\"done\":"@);
    assert(t + ",\"dir\":\""@ + d + "\",\"done\":"@ + n =~= t + ",\"dir\":"@ + json_text(d)
        + ",\"done\":"@ + n);
}

#[verifier::rlimit(40)]
proof fn lemma_marks()
    ensures
        ",\"name\":"@ == key_mark(false, "name"@),
        ",\"path\":"@ == key_mark(false, "path"@),
        ",\"dir\":"@ == key_mark(false, "dir"@),
        ",\"done\":"@ == key_mark(false, "done"@),
        ",\"total\":"@ == key_mark(false, "total"@),
        ",\"finished\":"@ == key_mark(false, "finished"@),
        ",\"ok\":"@ == key_mark(false, "ok"@),
        ",\"verified\":"@ == key_mark(false, "verified"@),
        ",\"fast\":"@ == key_mark(false, "fast"@),
        ",\"error\":"@ == key_mark(false, "error"@),
        "{\"id\":"@ == key_mark(true, "id"@),
        "{\"running\":"@ == key_mark(true, "running"@),
        is_plain_key("id"@),
        is_plain_key("name"@),
        is_plain_key("path"@),
        is_plain_key("dir"@),
        is_plain_key("done"@),
        is_plain_key("total"@),
        is_plain_key("finished"@),
        is_plain_key("ok"@),
        is_plain_key("verified"@),
        is_plain_key("fast"@),
        is_plain_key("running"@),
        is_plain_key("error"@),
        "}"@ == seq!['}'],
{
    reveal_strlit(",\"name\":");
    reveal_strlit(",\"path\":");
    reveal_strlit(",\"dir\":");
    reveal_strlit(",\"done\":");
    reveal_strlit(",\"total\":");
    reveal_strlit(",\"finished\":");
    reveal_strlit(",\"ok\":");
    reveal_strlit(",\"verified\":");
    reveal_strlit(",\"fast\":");
    reveal_strlit(",\"error\":");
    reveal_strlit("id");
    reveal_strlit("name");
    reveal_strlit("path");
    reveal_strlit("dir");
    reveal_strlit("done");
    reveal_strlit("total");
    reveal_strlit("finished");
    reveal_strlit("ok");
    reveal_strlit("verified");
    reveal_strlit("fast");
    reveal_strlit("running");
    reveal_strlit("error");
    reveal_strlit("{\"id\":");
    reveal_strlit("{\"running\":");
    reveal_strlit("}");
    assert(",\"name\":"@ =~= key_mark(false, "name"@));
    assert(",\"path\":"@ =~= key_mark(false, "path"@));
    assert(",\"dir\":"@ =~= key_mark(false, "dir"@));
    assert(",\"done\":"@ =~= key_mark(false, "done"@));
    assert(",\"total\":"@ =~= key_mark(false, "total"@));
    assert(",\"finished\":"@ =~= key_mark(false, "finished"@));
    assert(",\"ok\":"@ =~= key_mark(false, "ok"@));
    assert(",\"verified\":"@ =~= key_mark(false, "verified"@));
    assert(",\"fast\":"@ =~= key_mark(false, "fast"@));
    assert(",\"error\":"@ =~= key_mark(false, "error"@));
    assert("{\"id\":"@ =~= key_mark(true, "id"@));
    assert("{\"running\":"@ =~= key_mark(true, "running"@));
    assert("}"@ =~= seq!['}']);
}

#[verifier::rlimit(40)]
proof fn lemma_transfer_turns(t: Transfer, d: Seq<char>, marks: Seq<Seq<char>>, values: Seq<Seq<char>>)
    requires
        d == (match t.direction {
            Direction::Upload => "up"@,
            Direction::Download => "down"@,
        }),
        json_text(d) == seq!['"'] + d + seq!['"'],
        marks == seq![
            "{\"id\":"@,
            ",\"name\":"@,
            ",\"path\":"@,
            ",\"dir\":"@,
            ",\"done\":"@,
            ",\"total\":"@,
            ",\"finished\":"@,
            ",\"ok\":"@,
            ",\"verified\":"@,
            ",\"fast\":"@,
        ],
        values == seq![
            dec(t.id),
            json_text(t.name),
            json_text(t.path),
            json_text(d),
            dec(t.done as nat),
            match t.total {
                Some(n) => dec(n as nat),
                None => "null"@,
            },
            bool_text(t.finished),
            bool_text(t.ok),
            bool_text(t.verified),
            bool_text(t.fast),
        ],
    ensures
        transfer_json(t) == in_turn(marks, values, 10) + "}"@,
{
    reveal_with_fuel(in_turn, 11);
    lemma_direction(in_turn(marks, values, 3), d, dec(t.done as nat));
}

#[verifier::rlimit(40)]
proof fn lemma_transfer_json(t: Transfer)
    ensures
        transfer_json(t) == object_text(transfer_members(t)),
{
    let ms = transfer_members(t);
    let d = match t.direction {
        Direction::Upload => "up"@,
        Direction::Download => "down"@,
    };
    assert(json_text(d) == seq!['"'] + d + seq!['"']) by {
        reveal_strlit("up");
        reveal_strlit("down");
        lemma_key(d);
    }
    let marks = seq![
        "{\"id\":"@,
        ",\"name\":"@,
        ",\"path\":"@,
        ",\"dir\":"@,
        ",\"done\":"@,
        ",\"total\":"@,
        ",\"finished\":"@,
        ",\"ok\":"@,
        ",\"verified\":"@,
        ",\"fast\":"@,
    ];
    let values = seq![
        dec(t.id),
        json_text(t.name),
        json_text(t.path),
        json_text(d),
        dec(t.done as nat),
        match t.total {
            Some(n) => dec(n as nat),
            None => "null"@,
        },
        bool_text(t.finished),
        bool_text(t.ok),
        bool_text(t.verified),
        bool_text(t.fast),
    ];
    lemma_marks();
    lemma_transfer_turns(t, d, marks, values);
    lemma_in_turn(marks, values, ms, 10);
    assert(ms.take(10) =~= ms);
}

/// The number, the name, the path, the direction, the progress and the flags of a transfer can be
/// read back from its JSON.
pub proof fn transfers_are_read_back(t: Transfer)
    ensures
        is_object(transfer_json(t), transfer_members(t)),
{
    lemma_transfer_json(t);
    assert(transfer_members(t).len() == 10);
    lemma_is_object(transfer_members(t));
}

proof fn lemma_transfer_jsons(l: Seq<Transfer>, ms: Seq<Seq<(Seq<char>, Scalar)>>)
    requires
        ms.len() == l.len(),
        forall|i: int| 0 <= i < l.len() ==> #[trigger] ms[i] == transfer_members(l[i]),
    ensures
        transfer_jsons(l) == object_texts(ms),
        forall|i: int| 0 <= i < l.len() ==> (#[trigger] ms[i]).len() > 0,
{
    assert forall|i: int| 0 <= i < l.len() implies #[trigger] transfer_jsons(l)[i] == object_texts(
        ms,
    )[i] && ms[i].len() > 0 by {
        lemma_transfer_json(l[i]);
        assert(ms[i].len() == 10);
    }
    assert forall|i: int| 0 <= i < l.len() implies (#[trigger] ms[i]).len() > 0 by {
        assert(transfer_jsons(l)[i] == object_texts(ms)[i]);
    }
    assert(transfer_jsons(l) =~= object_texts(ms));
}

/// A list of transfers is read back, one object for each, in order.
pub proof fn transfer_lists_are_read_back(l: Seq<Transfer>)
    ensures
        read_array(seq!['['] + join(transfer_jsons(l), seq![',']) + seq![']']) == Some(
            (l.map_values(|t: Transfer| transfer_members(t)), Seq::<char>::empty()),
        ),
{
    let ms = l.map_values(|t: Transfer| transfer_members(t));
    let e = Seq::<char>::empty();
    lemma_transfer_jsons(l, ms);
    arrays_are_read_back(ms, e);
    let s = seq!['['] + join(transfer_jsons(l), seq![',']) + seq![']'];
    assert(s + e =~= s);
}

/// What is told of a download.
pub open spec fn status_members(s: GetStatus) -> Seq<(Seq<char>, Scalar)> {
    match s {
        GetStatus::BadHandle => seq![
            ("running"@, Scalar::Flag(false)),
            ("ok"@, Scalar::Flag(false)),
            ("error"@, Scalar::Text("bad handle"@)),
        ],
        GetStatus::Running(done, total) => seq![
            ("running"@, Scalar::Flag(true)),
            ("done"@, Scalar::Number(done as nat)),
            ("total"@, Scalar::Number(total as nat)),
        ],
        GetStatus::Done(total, fast, verified, name) => seq![
            ("running"@, Scalar::Flag(false)),
            ("ok"@, Scalar::Flag(true)),
            ("done"@, Scalar::Number(total as nat)),
            ("total"@, Scalar::Number(total as nat)),
            ("fast"@, Scalar::Flag(fast)),
            ("verified"@, Scalar::Flag(verified)),
            ("name"@, Scalar::Text(name@)),
        ],
        GetStatus::Failed(e) => seq![
            ("running"@, Scalar::Flag(false)),
            ("ok"@, Scalar::Flag(false)),
            ("error"@, Scalar::Text(e@)),
        ],
    }
}

proof fn lemma_status_marks()
    ensures
        "{\"running\":false,\"ok\":false,\"error\":"@ == "{\"running\":"@ + "false"@ + ",\"ok\":"@
            + "false"@ + ",\"error\":"@,
        "{\"running\":false,\"ok\":true,\"done\":"@ == "{\"running\":"@ + "false"@ + ",\"ok\":"@
            + "true"@ + ",\"done\":"@,
        "{\"running\":true,\"done\":"@ == "{\"running\":"@ + "true"@ + ",\"done\":"@,
        "{\"running\":false,\"ok\":false,\"error\":\"bad handle\"}"@
            == "{\"running\":false,\"ok\":false,\"error\":"@ + json_text("bad handle"@) + "}"@,
{
    reveal_strlit("{\"running\":false,\"ok\":false,\"error\":");
    reveal_strlit("{\"running\":false,\"ok\":true,\"done\":");
    reveal_strlit("{\"running\":true,\"done\":");
    reveal_strlit("{\"running\":false,\"ok\":false,\"error\":\"bad handle\"}");
    reveal_strlit("{\"running\":");
    reveal_strlit(",\"ok\":");
    reveal_strlit(",\"error\":");
    reveal_strlit(",\"done\":");
    reveal_strlit("true");
    reveal_strlit("false");
    reveal_strlit("bad handle");
    reveal_strlit("}");
    lemma_key("bad handle"@);
    assert("{\"running\":false,\"ok\":false,\"error\":"@ =~= "{\"running\":"@ + "false"@
        + ",\"ok\":"@ + "false"@ + ",\"error\":"@);
    assert("{\"running\":false,\"ok\":true,\"done\":"@ =~= "{\"running\":"@ + "false"@
        + ",\"ok\":"@ + "true"@ + ",\"done\":"@);
    assert("{\"running\":true,\"done\":"@ =~= "{\"running\":"@ + "true"@ + ",\"done\":"@);
    assert("{\"running\":false,\"ok\":false,\"error\":\"bad handle\"}"@
        =~= "{\"running\":false,\"ok\":false,\"error\":"@ + json_text("bad handle"@) + "}"@);
}

proof fn lemma_running(done: nat, total: nat)
    ensures
        "{\"running\":true,\"done\":"@ + dec(done) + ",\"total\":"@ + dec(total) + "}"@
            == object_text(
            seq![
                ("running"@, Scalar::Flag(true)),
                ("done"@, Scalar::Number(done)),
                ("total"@, Scalar::Number(total)),
            ],
        ),
{
    let ms = seq![
        ("running"@, Scalar::Flag(true)),
        ("done"@, Scalar::Number(done)),
        ("total"@, Scalar::Number(total)),
    ];
    lemma_marks();
    lemma_status_marks();
    let marks = seq!["{\"running\":"@, ",\"done\":"@, ",\"total\":"@];
    let values = seq!["true"@, dec(done), dec(total)];
    lemma_in_turn(marks, values, ms, 3);
    reveal_with_fuel(in_turn, 4);
    assert(ms.take(3) =~= ms);
}

#[verifier::rlimit(40)]
proof fn lemma_done(total: nat, fast: bool, verified: bool, name: Seq<char>)
    ensures
        "{\"running\":false,\"ok\":true,\"done\":"@ + dec(total) + ",\"total\":"@ + dec(total)
            + ",\"fast\":"@ + bool_text(fast) + ",\"verified\":"@ + bool_text(verified)
            + ",\"name\":"@ + json_text(name) + "}"@ == object_text(
            seq![
                ("running"@, Scalar::Flag(false)),
                ("ok"@, Scalar::Flag(true)),
                ("done"@, Scalar::Number(total)),
                ("total"@, Scalar::Number(total)),
                ("fast"@, Scalar::Flag(fast)),
                ("verified"@, Scalar::Flag(verified)),
                ("name"@, Scalar::Text(name)),
            ],
        ),
{
    let ms = seq![
        ("running"@, Scalar::Flag(false)),
        ("ok"@, Scalar::Flag(true)),
        ("done"@, Scalar::Number(total)),
        ("total"@, Scalar::Number(total)),
        ("fast"@, Scalar::Flag(fast)),
        ("verified"@, Scalar::Flag(verified)),
        ("name"@, Scalar::Text(name)),
    ];
    lemma_marks();
    lemma_status_marks();
    let marks = seq![
        "{\"running\":"@,
        ",\"ok\":"@,
        ",\"done\":"@,
        ",\"total\":"@,
        ",\"fast\":"@,
        ",\"verified\":"@,
        ",\"name\":"@,
    ];
    let values = seq![
        "false"@,
        "true"@,
        dec(total),
        dec(total),
        bool_text(fast),
        bool_text(verified),
        json_text(name),
    ];
    lemma_in_turn(marks, values, ms, 7);
    reveal_with_fuel(in_turn, 8);
    assert(ms.take(7) =~= ms);
}

proof fn lemma_failed(error: Seq<char>)
    ensures
        "{\"running\":false,\"ok\":false,\"error\":"@ + json_text(error) + "}"@ == object_text(
            seq![
                ("running"@, Scalar::Flag(false)),
                ("ok"@, Scalar::Flag(false)),
                ("error"@, Scalar::Text(error)),
            ],
        ),
{
    let ms = seq![
        ("running"@, Scalar::Flag(false)),
        ("ok"@, Scalar::Flag(false)),
        ("error"@, Scalar::Text(error)),
    ];
    lemma_marks();
    lemma_status_marks();
    let marks = seq!["{\"running\":"@, ",\"ok\":"@, ",\"error\":"@];
    let values = seq!["false"@, "false"@, json_text(error)];
    lemma_in_turn(marks, values, ms, 3);
    reveal_with_fuel(in_turn, 4);
    assert(ms.take(3) =~= ms);
}

/// The state of a download can be read back from its JSON.
pub proof fn statuses_are_read_back(s: GetStatus)
    ensures
        is_object(status_text(s), status_members(s)),
{
    match s {
        GetStatus::Running(done, total) => {
            lemma_running(done as nat, total as nat);
        },
        GetStatus::Done(total, fast, verified, name) => {
            lemma_done(total as nat, fast, verified, name@);
        },
        GetStatus::Failed(e) => {
            lemma_failed(e@);
        },
        GetStatus::BadHandle => {
            lemma_status_marks();
            lemma_failed("bad handle"@);
        },
    }
    let ms = status_members(s);
    assert(ms.len() > 0);
    lemma_is_object(ms);
}

} // verus!
