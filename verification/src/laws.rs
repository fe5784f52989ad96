//! What holds of decoders and log lines as a whole.
use crate::borsh::decode_fields;
use crate::encoding::{encode_fields, lemma_fields_round_trip, shown, Datum};
use crate::error::IdlErrorModel;
use crate::events::{
    decoder_for, event_error, event_index, first_error, lemma_event_index, payload, types_by_name,
    DecoderModel,
};
use crate::idl::{BodyModel, EventModel, FieldsModel, IdlModel, TypeDefModel};
use crate::locality::{lemma_fields_local, lemma_fields_need_all};
use crate::progress::lemma_fields_in_buffer;
use crate::proper::lemma_fields_proper;
use crate::text::{
    base64_bytes, base64_text, is_blank, lemma_after_prefix, lemma_base64_bytes,
    lemma_base64_round_trip, lemma_base64_text_trimmed, lemma_trimmed_padding,
    lemma_trimmed_split, trimmed,
};
use crate::value::{proper, ValueModel};
use crate::writable::lemma_fields_spelled;
use vstd::prelude::*;

verus! {

/// A name is defined when some definition has it, and stands for what the last
/// such definition says.
pub proof fn lemma_last_definition_counts(defs: Seq<TypeDefModel>, i: int)
    requires
        0 <= i < defs.len(),
        forall|j: int| i < j < defs.len() ==> (#[trigger] defs[j]).name != defs[i].name,
    ensures
        types_by_name(defs).dom().contains(defs[i].name),
        types_by_name(defs)[defs[i].name] == defs[i].ty,
    decreases defs.len(),
{
    if i < defs.len() - 1 {
        let front = defs.drop_last();
        assert(defs[defs.len() - 1].name != defs[i].name);
        assert forall|j: int| i < j < front.len() implies (#[trigger] front[j]).name
            != front[i].name by {
            assert(front[j] == defs[j]);
        }
        lemma_last_definition_counts(front, i);
    }
}

/// There are finitely many definitions, and each name among them is the name of
/// a definition of the IDL.
pub proof fn lemma_definitions(defs: Seq<TypeDefModel>)
    ensures
        types_by_name(defs).dom().finite(),
        forall|name: Seq<char>|
            types_by_name(defs).dom().contains(name) <==> exists|i: int|
                0 <= i < defs.len() && (#[trigger] defs[i]).name == name,
    decreases defs.len(),
{
    if defs.len() > 0 {
        let front = defs.drop_last();
        lemma_definitions(front);
        assert forall|name: Seq<char>|
            types_by_name(defs).dom().contains(name) <==> exists|i: int|
                0 <= i < defs.len() && (#[trigger] defs[i]).name == name by {
            if types_by_name(front).dom().contains(name) {
                let i = choose|i: int| 0 <= i < front.len() && (#[trigger] front[i]).name == name;
                assert(defs[i] == front[i]);
            }
            if exists|i: int| 0 <= i < defs.len() && (#[trigger] defs[i]).name == name {
                let i = choose|i: int| 0 <= i < defs.len() && (#[trigger] defs[i]).name == name;
                if i < front.len() {
                    assert(front[i] == defs[i]);
                } else {
                    assert(defs[i] == defs.last());
                }
            }
        }
    }
}

/// A decoder can be built exactly when each event has a definition of its name
/// that is a struct; it has the events and definitions of the IDL. Otherwise the
/// first event without one is to blame.
pub proof fn lemma_decoder_exists(idl: IdlModel)
    ensures
        ({
            let types = types_by_name(idl.types);
            match decoder_for(idl) {
                Ok(decoder) => {
                    &&& decoder.events == idl.events
                    &&& decoder.types == types
                    &&& types.dom().finite()
                    &&& forall|i: int|
                        0 <= i < idl.events.len() ==> types.dom().contains(
                            (#[trigger] idl.events[i]).name,
                        ) && types[idl.events[i].name] is Struct
                },
                Err(e) => exists|i: int|
                    {
                        &&& 0 <= i < idl.events.len()
                        &&& event_error(types, #[trigger] idl.events[i]) == Some(e)
                        &&& forall|j: int|
                            0 <= j < i ==> event_error(types, #[trigger] idl.events[j]) is None
                    },
            }
        }),
        ({
            let types = types_by_name(idl.types);
            decoder_for(idl) is Err ==> exists|i: int|
                {
                    &&& 0 <= i < idl.events.len()
                    &&& decoder_for(idl)->Err_0 == (if types.dom().contains(
                        (#[trigger] idl.events[i]).name,
                    ) {
                        IdlErrorModel::NotAStruct { event: idl.events[i].name }
                    } else {
                        IdlErrorModel::MissingType { event: idl.events[i].name }
                    })
                    &&& !(types.dom().contains(idl.events[i].name)
                        && types[idl.events[i].name] is Struct)
                    &&& forall|j: int|
                        0 <= j < i ==> types.dom().contains((#[trigger] idl.events[j]).name)
                            && types[idl.events[j].name] is Struct
                }
        }),
{
    let types = types_by_name(idl.types);
    lemma_definitions(idl.types);
    lemma_first_error_is_first(types, idl.events);
    if first_error(types, idl.events) is None {
        assert forall|i: int| 0 <= i < idl.events.len() implies types.dom().contains(
            (#[trigger] idl.events[i]).name,
        ) && types[idl.events[i].name] is Struct by {
            assert(event_error(types, idl.events[i]) is None);
        }
    } else {
        let e = decoder_for(idl)->Err_0;
        let i = choose|i: int|
            {
                &&& 0 <= i < idl.events.len()
                &&& event_error(types, #[trigger] idl.events[i]) == Some(e)
                &&& forall|j: int|
                    0 <= j < i ==> event_error(types, #[trigger] idl.events[j]) is None
            };
        assert forall|j: int| 0 <= j < i implies types.dom().contains(
            (#[trigger] idl.events[j]).name,
        ) && types[idl.events[j].name] is Struct by {
            assert(event_error(types, idl.events[j]) is None);
        }
        assert(idl.events[i].name == idl.events[i].name);
    }
}

/// The names of a decoder are those of the events of its IDL, as many and in the
/// same order.
pub proof fn lemma_names(idl: IdlModel)
    requires
        decoder_for(idl) is Ok,
    ensures
        decoder_for(idl)->Ok_0.names().len() == idl.events.len(),
        forall|i: int|
            0 <= i < idl.events.len() ==> (#[trigger] decoder_for(idl)->Ok_0.names()[i])
                == idl.events[i].name,
{
    lemma_decoder_exists(idl);
}

/// The fields of an event are those of the struct of its name.
pub proof fn lemma_event_fields(decoder: DecoderModel, name: Seq<char>)
    requires
        decoder.types.dom().contains(name),
    ensures
        decoder.types[name] matches BodyModel::Struct { fields } ==> decoder.fields(name)
            == fields,
{
}

/// The decoder knows finitely many definitions, and each of its events is a
/// struct.
pub open spec fn is_complete(decoder: DecoderModel) -> bool {
    &&& decoder.types.dom().finite()
    &&& forall|i: int|
        0 <= i < decoder.events.len() ==> decoder.types.dom().contains(
            (#[trigger] decoder.events[i]).name,
        ) && decoder.types[decoder.events[i].name] is Struct
}

/// Every decoder for an IDL is complete.
pub proof fn lemma_decoder_complete(idl: IdlModel)
    requires
        decoder_for(idl) is Ok,
    ensures
        is_complete(decoder_for(idl)->Ok_0),
{
    lemma_decoder_exists(idl);
}

/// `bytes` are event `i`: the event's discriminator, which no event before it
/// has, then the Borsh form of `d` as the fields of the struct of the event's
/// name, and `rest`.
pub open spec fn is_event(
    decoder: DecoderModel,
    bytes: Seq<u8>,
    i: int,
    d: Datum,
    depth: nat,
    rest: Seq<u8>,
) -> bool {
    &&& 0 <= i < decoder.events.len()
    &&& decoder.events[i].discriminator.len() == 8
    &&& forall|j: int|
        0 <= j < i ==> (#[trigger] decoder.events[j]).discriminator
            != decoder.events[i].discriminator
    &&& decoder.types.dom().contains(decoder.events[i].name)
    &&& decoder.types[decoder.events[i].name] matches BodyModel::Struct { fields }
    &&& encode_fields(decoder.types, fields, d, depth) matches Some(body)
    &&& bytes == decoder.events[i].discriminator + body + rest
}

/// Bytes that are an event decode to its name and what its fields look like.
pub proof fn lemma_event_complete(
    decoder: DecoderModel,
    bytes: Seq<u8>,
    i: int,
    d: Datum,
    depth: nat,
    rest: Seq<u8>,
)
    requires
        is_complete(decoder),
        bytes.len() <= usize::MAX,
        is_event(decoder, bytes, i, d, depth, rest),
    ensures
        decoder.event(bytes) == Some((decoder.events[i].name, shown(d))),
{
    assert(bytes =~= written_event(decoder, i, d, depth) + rest);
    lemma_event_round_trip(decoder, i, d, depth, rest);
}

/// Only bytes that are an event decode: what comes out is the name of that event
/// and what its fields look like.
pub proof fn lemma_event_sound(decoder: DecoderModel, bytes: Seq<u8>)
    requires
        is_complete(decoder),
        decoder.event(bytes) is Some,
    ensures
        exists|i: int, d: Datum, depth: nat, rest: Seq<u8>|
            #[trigger] is_event(decoder, bytes, i, d, depth, rest) && decoder.event(bytes) == Some(
                (decoder.events[i].name, shown(d)),
            ),
{
    let (i, d, depth, used) = lemma_event_parts(decoder, bytes);
    lemma_is_event(decoder, bytes, i, d, depth, used);
    assert(is_event(decoder, bytes, i, d, depth, bytes.skip(8 + used)));
}

/// The position of the event that bytes hold, the value that its fields spell,
/// how deep that is nested, and how many bytes it takes.
proof fn lemma_event_parts(decoder: DecoderModel, bytes: Seq<u8>) -> (r: (int, Datum, nat, int))
    requires
        is_complete(decoder),
        decoder.event(bytes) is Some,
    ensures
        0 <= r.3 <= bytes.len() - 8,
        0 <= r.0 < decoder.events.len(),
        decoder.events[r.0].discriminator == bytes.take(8),
        forall|j: int|
            0 <= j < r.0 ==> (#[trigger] decoder.events[j]).discriminator != bytes.take(8),
        encode_fields(
            decoder.types,
            decoder.types[decoder.events[r.0].name]->Struct_fields,
            r.1,
            r.2,
        ) == Some(bytes.skip(8).subrange(0, r.3)),
        decoder.event(bytes) == Some((decoder.events[r.0].name, shown(r.1))),
{
    lemma_event_index(decoder.events, bytes.take(8));
    let i = event_index(decoder.events, bytes.take(8));
    let name = decoder.events[i].name;
    let fields = decoder.fields(name);
    let body = bytes.skip(8);
    let o = decode_fields(decoder.rules(), body, fields, 0, decoder.depth());
    assert(decoder.types[name] is Struct);
    lemma_fields_spelled(decoder.types, body, fields, 0);
    let (d, depth) = choose|d: Datum, depth: nat|
        (#[trigger] encode_fields(decoder.types, fields, d, depth)) == Some(
            body.subrange(0, o.used as int),
        ) && shown(d) == o.result->Ok_0;
    (i, d, depth, o.used as int)
}

proof fn lemma_is_event(
    decoder: DecoderModel,
    bytes: Seq<u8>,
    i: int,
    d: Datum,
    depth: nat,
    used: int,
)
    requires
        is_complete(decoder),
        0 <= used <= bytes.len() - 8,
        0 <= i < decoder.events.len(),
        decoder.events[i].discriminator == bytes.take(8),
        forall|j: int|
            0 <= j < i ==> (#[trigger] decoder.events[j]).discriminator != bytes.take(8),
        encode_fields(
            decoder.types,
            decoder.types[decoder.events[i].name]->Struct_fields,
            d,
            depth,
        ) == Some(bytes.skip(8).subrange(0, used)),
    ensures
        is_event(decoder, bytes, i, d, depth, bytes.skip(8 + used)),
{
    assert(decoder.types[decoder.events[i].name] is Struct);
    assert(bytes =~= bytes.take(8) + bytes.skip(8).subrange(0, used) + bytes.skip(8 + used));
}

/// Bytes hold no event where they are fewer than eight, where their first eight
/// are the discriminator of no event, or where the fields of the event's struct
/// do not decode after them.
pub proof fn lemma_no_event(decoder: DecoderModel, bytes: Seq<u8>, i: int)
    requires
        is_complete(decoder),
    ensures
        bytes.len() < 8 ==> decoder.event(bytes) is None,
        (forall|j: int|
            0 <= j < decoder.events.len() ==> (#[trigger] decoder.events[j]).discriminator
                != bytes.take(8)) ==> decoder.event(bytes) is None,
        ({
            &&& bytes.len() >= 8
            &&& 0 <= i < decoder.events.len()
            &&& decoder.events[i].discriminator == bytes.take(8)
            &&& forall|j: int|
                0 <= j < i ==> (#[trigger] decoder.events[j]).discriminator != bytes.take(8)
        }) ==> {
            let fields = decoder.types[decoder.events[i].name]->Struct_fields;
            let o = decode_fields(decoder.rules(), bytes.skip(8), fields, 0, decoder.depth());
            decoder.event(bytes) is None <==> o.result is Err
        },
{
    lemma_event_index(decoder.events, bytes.take(8));
    if 0 <= i < decoder.events.len() {
        lemma_event_fields(decoder, decoder.events[i].name);
    }
}

/// A line holds an event exactly where it is one of the two prefixes and then,
/// with nothing but white space around it, the base64 text of bytes that hold
/// the event.
pub proof fn lemma_line_exact(decoder: DecoderModel, line: Seq<char>)
    ensures
        forall|event: (Seq<char>, ValueModel)|
            decoder.line(line) == Some(event) <==> exists|
                prefix: Seq<char>,
                front: Seq<char>,
                bytes: Seq<u8>,
                back: Seq<char>,
            | #[trigger]
                is_line(line, prefix, front, bytes, back) && decoder.event(bytes) == Some(event),
{
    assert forall|event: (Seq<char>, ValueModel)| decoder.line(line) == Some(event) implies exists|
        prefix: Seq<char>,
        front: Seq<char>,
        bytes: Seq<u8>,
        back: Seq<char>,
    | #[trigger]
        is_line(line, prefix, front, bytes, back) && decoder.event(bytes) == Some(event) by {
        let text = payload(line)->Some_0;
        let bytes = base64_bytes(text)->Some_0;
        lemma_base64_bytes(text);
        lemma_after_prefix(line, "Program data: "@);
        lemma_after_prefix(line, "Program log: "@);
        let prefix = if "Program data: "@.is_prefix_of(line) {
            "Program data: "@
        } else {
            "Program log: "@
        };
        let rest = line.skip(prefix.len() as int);
        lemma_trimmed_split(rest);
        let (front, back) = choose|front: Seq<char>, back: Seq<char>|
            is_blank(front) && is_blank(back) && rest == #[trigger] (front + trimmed(rest) + back);
        assert(is_line(line, prefix, front, bytes, back));
    }
    assert forall|prefix: Seq<char>, front: Seq<char>, bytes: Seq<u8>, back: Seq<char>|
        #[trigger] is_line(line, prefix, front, bytes, back) implies decoder.line(line)
        == decoder.event(bytes) by {
        lemma_trimmed_padding(front, base64_text(bytes), back);
        lemma_base64_text_trimmed(bytes);
        lemma_base64_round_trip(bytes);
        lemma_payload(front + base64_text(bytes) + back);
    }
}

/// `line` is a prefix that marks an event, white space, the base64 text of
/// `bytes`, and white space again.
pub open spec fn is_line(
    line: Seq<char>,
    prefix: Seq<char>,
    front: Seq<char>,
    bytes: Seq<u8>,
    back: Seq<char>,
) -> bool {
    &&& prefix == "Program data: "@ || prefix == "Program log: "@
    &&& is_blank(front)
    &&& is_blank(back)
    &&& line == prefix + (front + base64_text(bytes) + back)
}

/// One line contributes exactly the event that it holds, if it holds one.
pub proof fn lemma_logs_single(decoder: DecoderModel, line: Seq<char>)
    ensures
        decoder.logs(seq![line]) == (match decoder.line(line) {
            Some(event) => seq![event],
            None => Seq::empty(),
        }),
{
    let lines = seq![line];
    assert(lines.drop_last() =~= Seq::empty());
    assert(decoder.logs(lines.drop_last()) =~= Seq::empty());
    if let Some(event) = decoder.line(line) {
        assert(Seq::empty().push(event) =~= seq![event]);
    }
}

/// Every event that a line holds is among the events of the logs, as often as
/// there are lines that hold one, and nothing else is.
pub proof fn lemma_logs_all(decoder: DecoderModel, lines: Seq<Seq<char>>)
    ensures
        decoder.logs(lines) == lines.map_values(|line: Seq<char>| decoder.line(line)).filter(
            |e: Option<(Seq<char>, ValueModel)>| e is Some,
        ).map_values(|e: Option<(Seq<char>, ValueModel)>| e->Some_0),
    decreases lines.len(),
{
    let found = |e: Option<(Seq<char>, ValueModel)>| e is Some;
    let results = lines.map_values(|line: Seq<char>| decoder.line(line));
    reveal(Seq::filter);
    if lines.len() > 0 {
        let front = lines.drop_last();
        lemma_logs_all(decoder, front);
        assert(results.drop_last() =~= front.map_values(|line: Seq<char>| decoder.line(line)));
        assert(results.last() == decoder.line(lines.last()));
        let kept = results.filter(found).map_values(
            |e: Option<(Seq<char>, ValueModel)>| e->Some_0,
        );
        let before = results.drop_last().filter(found).map_values(
            |e: Option<(Seq<char>, ValueModel)>| e->Some_0,
        );
        if let Some(event) = decoder.line(lines.last()) {
            assert(kept =~= before.push(event));
        } else {
            assert(kept =~= before);
        }
    }
}

proof fn lemma_first_error_is_first(types: Map<Seq<char>, BodyModel>, events: Seq<EventModel>)
    ensures
        match first_error(types, events) {
            None => forall|i: int|
                0 <= i < events.len() ==> event_error(types, #[trigger] events[i]) is None,
            Some(e) => exists|i: int|
                {
                    &&& 0 <= i < events.len()
                    &&& event_error(types, #[trigger] events[i]) == Some(e)
                    &&& forall|j: int|
                        0 <= j < i ==> event_error(types, #[trigger] events[j]) is None
                },
        },
    decreases events.len(),
{
    if events.len() > 0 {
        let front = events.drop_last();
        lemma_first_error_is_first(types, front);
        match first_error(types, front) {
            Some(e) => {
                let i = choose|i: int|
                    {
                        &&& 0 <= i < front.len()
                        &&& event_error(types, #[trigger] front[i]) == Some(e)
                        &&& forall|j: int|
                            0 <= j < i ==> event_error(types, #[trigger] front[j]) is None
                    };
                assert(events[i] == front[i]);
                assert forall|j: int| 0 <= j < i implies event_error(
                    types,
                    #[trigger] events[j],
                ) is None by {
                    assert(front[j] == events[j]);
                }
            },
            None => {
                assert forall|j: int| 0 <= j < front.len() implies event_error(
                    types,
                    #[trigger] events[j],
                ) is None by {
                    assert(front[j] == events[j]);
                }
                assert(events[events.len() - 1] == events.last());
            },
        }
    }
}

/// The event that bytes hold is one of the decoder's: the first whose
/// discriminator is the first eight bytes.
pub proof fn lemma_event_is_declared(decoder: DecoderModel, bytes: Seq<u8>)
    requires
        decoder.event(bytes) is Some,
    ensures
        bytes.len() >= 8,
        exists|i: int|
            {
                &&& 0 <= i < decoder.events.len()
                &&& (#[trigger] decoder.events[i]).discriminator == bytes.take(8)
                &&& decoder.events[i].name == decoder.event(bytes)->Some_0.0
                &&& forall|j: int|
                    0 <= j < i ==> (#[trigger] decoder.events[j]).discriminator != bytes.take(8)
            },
{
    lemma_event_index(decoder.events, bytes.take(8));
    let i = event_index(decoder.events, bytes.take(8));
    assert(decoder.events[i].discriminator == bytes.take(8));
}

/// In an event that decodes, no dictionary has a key twice.
pub proof fn lemma_event_proper(decoder: DecoderModel, bytes: Seq<u8>)
    requires
        decoder.event(bytes) is Some,
    ensures
        proper(decoder.event(bytes)->Some_0.1),
{
    let fields = decoder.fields(decoder.event(bytes)->Some_0.0);
    lemma_fields_proper(decoder.rules(), bytes.skip(8), fields, 0, decoder.depth());
}

/// An event without fields, or with named ones, decodes to a dictionary; one
/// with unnamed fields, to a list.
pub proof fn lemma_event_shape(decoder: DecoderModel, bytes: Seq<u8>)
    requires
        decoder.event(bytes) is Some,
    ensures
        ({
            let (name, value) = decoder.event(bytes)->Some_0;
            match decoder.fields(name) {
                None => value == ValueModel::Dict(Seq::empty()),
                Some(FieldsModel::Named(_)) => value is Dict,
                Some(FieldsModel::Tuple(types)) => value is List,
            }
        }),
{
}

/// Bytes after the fields of an event make no difference.
pub proof fn lemma_event_ignores_rest(decoder: DecoderModel, bytes: Seq<u8>, rest: Seq<u8>)
    requires
        decoder.event(bytes) is Some,
        (bytes + rest).len() <= usize::MAX,
    ensures
        decoder.event(bytes + rest) == decoder.event(bytes),
{
    let a = bytes.skip(8);
    let b = (bytes + rest).skip(8);
    let name = decoder.event(bytes)->Some_0.0;
    let fields = decoder.fields(name);
    let o = decode_fields(decoder.rules(), a, fields, 0, decoder.depth());
    lemma_event_index(decoder.events, bytes.take(8));
    assert((bytes + rest).take(8) =~= bytes.take(8));
    lemma_fields_in_buffer(decoder.rules(), a, fields, 0, decoder.depth());
    assert(a.subrange(0, o.used as int) =~= b.subrange(0, o.used as int));
    lemma_fields_local(decoder.rules(), a, 0, b, 0, fields, decoder.depth());
}

/// Without the last byte that its fields use up, an event does not decode.
pub proof fn lemma_event_cut_short(decoder: DecoderModel, bytes: Seq<u8>, len: nat)
    requires
        bytes.len() <= usize::MAX,
        decoder.event(bytes) is Some,
        len < 8 + decode_fields(
            decoder.rules(),
            bytes.skip(8),
            decoder.fields(decoder.event(bytes)->Some_0.0),
            0,
            decoder.depth(),
        ).used,
    ensures
        decoder.event(bytes.take(len as int)) is None,
{
    let body = bytes.skip(8);
    let fields = decoder.fields(decoder.event(bytes)->Some_0.0);
    lemma_fields_in_buffer(decoder.rules(), body, fields, 0, decoder.depth());
    if len >= 8 {
        let cut = bytes.take(len as int);
        assert(cut.take(8) =~= bytes.take(8));
        assert(cut.skip(8) =~= body.take(len - 8));
        lemma_fields_need_all(decoder.rules(), body, fields, 0, decoder.depth(), (len - 8) as nat);
    }
}

/// The two prefixes mark an event alike, and white space around the text after
/// them makes no difference.
pub proof fn lemma_line_prefixes(
    decoder: DecoderModel,
    text: Seq<char>,
    front: Seq<char>,
    back: Seq<char>,
)
    requires
        is_blank(front),
        is_blank(back),
    ensures
        payload("Program data: "@ + (front + text + back)) == Some(trimmed(text)),
        payload("Program log: "@ + (front + text + back)) == Some(trimmed(text)),
        decoder.line("Program data: "@ + (front + text + back)) == decoder.line(
            "Program log: "@ + text,
        ),
        decoder.line("Program log: "@ + (front + text + back)) == decoder.line(
            "Program data: "@ + text,
        ),
{
    lemma_trimmed_padding(front, text, back);
    lemma_payload(front + text + back);
    lemma_payload(text);
}

proof fn lemma_payload(rest: Seq<char>)
    ensures
        payload("Program data: "@ + rest) == Some(trimmed(rest)),
        payload("Program log: "@ + rest) == Some(trimmed(rest)),
{
    reveal_strlit("Program data: ");
    reveal_strlit("Program log: ");
    let data = "Program data: "@ + rest;
    let log = "Program log: "@ + rest;
    assert(data.skip("Program data: "@.len() as int) =~= rest);
    assert(log.skip("Program log: "@.len() as int) =~= rest);
    assert("Program data: "@.is_prefix_of(data));
    assert("Program log: "@.is_prefix_of(log));
    assert(log[8] == 'l');
    assert(!"Program data: "@.is_prefix_of(log));
}

/// A line that starts with neither prefix holds no event.
pub proof fn lemma_line_without_prefix(decoder: DecoderModel, line: Seq<char>)
    requires
        !"Program data: "@.is_prefix_of(line),
        !"Program log: "@.is_prefix_of(line),
    ensures
        decoder.line(line) is None,
{
}

/// Logs in two parts hold the events of the first part, then those of the
/// second: what a line comes to does not depend on the lines around it.
pub proof fn lemma_logs_concat(decoder: DecoderModel, a: Seq<Seq<char>>, b: Seq<Seq<char>>)
    ensures
        decoder.logs(a + b) == decoder.logs(a) + decoder.logs(b),
    decreases b.len(),
{
    if b.len() == 0 {
        assert(a + b =~= a);
        assert(decoder.logs(a) + decoder.logs(b) =~= decoder.logs(a));
    } else {
        lemma_logs_concat(decoder, a, b.drop_last());
        assert((a + b).drop_last() =~= a + b.drop_last());
        assert((a + b).last() == b.last());
        if let Some(event) = decoder.line(b.last()) {
            assert(decoder.logs(a) + decoder.logs(b.drop_last()).push(event) =~= (decoder.logs(a)
                + decoder.logs(b.drop_last())).push(event));
        }
    }
}

/// A line that holds no event makes no difference, wherever it stands.
pub proof fn lemma_logs_skip(
    decoder: DecoderModel,
    a: Seq<Seq<char>>,
    line: Seq<char>,
    b: Seq<Seq<char>>,
)
    requires
        decoder.line(line) is None,
    ensures
        decoder.logs(a + seq![line] + b) == decoder.logs(a + b),
{
    lemma_logs_concat(decoder, a + seq![line], b);
    lemma_logs_concat(decoder, a, b);
    assert((a + seq![line]).drop_last() =~= a);
}

/// Logs hold at most one event per line, and only events that the decoder
/// knows; in none of them has a dictionary a key twice.
pub proof fn lemma_logs_events(decoder: DecoderModel, lines: Seq<Seq<char>>)
    ensures
        decoder.logs(lines).len() <= lines.len(),
        forall|i: int|
            0 <= i < decoder.logs(lines).len() ==> decoder.names().contains(
                (#[trigger] decoder.logs(lines)[i]).0,
            ) && proper(decoder.logs(lines)[i].1),
    decreases lines.len(),
{
    if lines.len() > 0 {
        let front = lines.drop_last();
        lemma_logs_events(decoder, front);
        assert forall|i: int| 0 <= i < decoder.logs(lines).len() implies decoder.names().contains(
            (#[trigger] decoder.logs(lines)[i]).0,
        ) && proper(decoder.logs(lines)[i].1) by {
            if i < decoder.logs(front).len() {
                assert(decoder.logs(lines)[i] == decoder.logs(front)[i]);
            } else {
                let bytes = base64_bytes(payload(lines.last())->Some_0)->Some_0;
                lemma_event_index(decoder.events, bytes.take(8));
                lemma_event_proper(decoder, bytes);
                let k = event_index(decoder.events, bytes.take(8));
                assert(decoder.names()[k] == decoder.logs(lines)[i].0);
            }
        }
    }
}

/// The bytes of event `i` with this value: its discriminator, then its fields.
pub open spec fn written_event(
    decoder: DecoderModel,
    i: int,
    value: Datum,
    depth: nat,
) -> Seq<u8> {
    decoder.events[i].discriminator + encode_fields(
        decoder.types,
        decoder.fields(decoder.events[i].name),
        value,
        depth,
    )->Some_0
}

/// An event that was written is read back: its discriminator, the Borsh bytes of
/// its fields, and whatever follows them. The event has to be the first with its
/// discriminator, and the discriminator eight bytes long.
pub proof fn lemma_event_round_trip(
    decoder: DecoderModel,
    i: int,
    value: Datum,
    depth: nat,
    rest: Seq<u8>,
)
    requires
        decoder.types.dom().finite(),
        0 <= i < decoder.events.len(),
        decoder.events[i].discriminator.len() == 8,
        forall|j: int|
            0 <= j < i ==> (#[trigger] decoder.events[j]).discriminator
                != decoder.events[i].discriminator,
        encode_fields(
            decoder.types,
            decoder.fields(decoder.events[i].name),
            value,
            depth,
        ) is Some,
        (written_event(decoder, i, value, depth) + rest).len() <= usize::MAX,
    ensures
        decoder.event(written_event(decoder, i, value, depth) + rest) == Some(
            (decoder.events[i].name, shown(value)),
        ),
{
    let event = decoder.events[i];
    let fields = decoder.fields(event.name);
    let body = encode_fields(decoder.types, fields, value, depth)->Some_0;
    let bytes = event.discriminator + body + rest;
    lemma_event_index(decoder.events, event.discriminator);
    assert(bytes.take(8) =~= event.discriminator);
    assert(bytes.skip(8).subrange(0, body.len() as int) =~= body);
    lemma_fields_round_trip(decoder.types, fields, value, depth, bytes.skip(8), 0);
}

/// An event that was written to a log line is read back from it, with either
/// prefix and with white space around the base64 text.
pub proof fn lemma_line_round_trip(
    decoder: DecoderModel,
    i: int,
    value: Datum,
    depth: nat,
    front: Seq<char>,
    back: Seq<char>,
)
    requires
        decoder.types.dom().finite(),
        0 <= i < decoder.events.len(),
        decoder.events[i].discriminator.len() == 8,
        forall|j: int|
            0 <= j < i ==> (#[trigger] decoder.events[j]).discriminator
                != decoder.events[i].discriminator,
        encode_fields(
            decoder.types,
            decoder.fields(decoder.events[i].name),
            value,
            depth,
        ) is Some,
        written_event(decoder, i, value, depth).len() <= usize::MAX,
        is_blank(front),
        is_blank(back),
    ensures
        ({
            let text = base64_text(written_event(decoder, i, value, depth));
            let event = Some((decoder.events[i].name, shown(value)));
            &&& decoder.line("Program data: "@ + (front + text + back)) == event
            &&& decoder.line("Program log: "@ + (front + text + back)) == event
        }),
{
    let bytes = written_event(decoder, i, value, depth);
    assert(bytes + Seq::<u8>::empty() =~= bytes);
    lemma_event_round_trip(decoder, i, value, depth, Seq::empty());
    lemma_base64_text_trimmed(bytes);
    lemma_base64_round_trip(bytes);
    lemma_line_prefixes(decoder, base64_text(bytes), front, back);
}

} // verus!
