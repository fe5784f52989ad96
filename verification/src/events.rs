//! What a decoder makes of an IDL and of log lines.
use crate::borsh::{decode_fields, guarded, Rules};
use crate::error::IdlErrorModel;
use crate::idl::{BodyModel, EventModel, FieldsModel, IdlModel, TypeDefModel};
use crate::text::{after_prefix, base64_bytes, trimmed};
use crate::value::ValueModel;
use vstd::prelude::*;

verus! {

/// What a decoder works with: the events in the order in which the IDL declares
/// them, and the definitions by name.
pub struct DecoderModel {
    pub events: Seq<EventModel>,
    pub types: Map<Seq<char>, BodyModel>,
}

/// The definitions by name; of several with one name, the last counts.
pub open spec fn types_by_name(defs: Seq<TypeDefModel>) -> Map<Seq<char>, BodyModel>
    decreases defs.len(),
{
    if defs.len() == 0 {
        Map::empty()
    } else {
        types_by_name(defs.drop_last()).insert(defs.last().name, defs.last().ty)
    }
}

/// What is wrong with an event: no definition of its name, or one that is not a
/// struct.
pub open spec fn event_error(
    types: Map<Seq<char>, BodyModel>,
    event: EventModel,
) -> Option<IdlErrorModel> {
    if !types.dom().contains(event.name) {
        Some(IdlErrorModel::MissingType { event: event.name })
    } else if !(types[event.name] is Struct) {
        Some(IdlErrorModel::NotAStruct { event: event.name })
    } else {
        None
    }
}

/// What is wrong with the first event with which anything is.
pub open spec fn first_error(
    types: Map<Seq<char>, BodyModel>,
    events: Seq<EventModel>,
) -> Option<IdlErrorModel>
    decreases events.len(),
{
    if events.len() == 0 {
        None
    } else {
        match first_error(types, events.drop_last()) {
            Some(e) => Some(e),
            None => event_error(types, events.last()),
        }
    }
}

/// The decoder for an IDL.
pub open spec fn decoder_for(idl: IdlModel) -> Result<DecoderModel, IdlErrorModel> {
    let types = types_by_name(idl.types);
    match first_error(types, idl.events) {
        Some(e) => Err(e),
        None => Ok(DecoderModel { events: idl.events, types }),
    }
}

/// The part of a log line that may hold an event: what follows one of the two
/// prefixes, without white space around it.
pub open spec fn payload(line: Seq<char>) -> Option<Seq<char>> {
    match after_prefix(line, "Program data: "@) {
        Some(rest) => Some(trimmed(rest)),
        None => match after_prefix(line, "Program log: "@) {
            Some(rest) => Some(trimmed(rest)),
            None => None,
        },
    }
}

/// The position of the first event with this discriminator, or the number of
/// events.
pub open spec fn event_index(events: Seq<EventModel>, discriminator: Seq<u8>) -> int
    decreases events.len(),
{
    if events.len() == 0 || events[0].discriminator == discriminator {
        0
    } else {
        1 + event_index(events.drop_first(), discriminator)
    }
}

/// Of several events with one discriminator, the first counts.
pub proof fn lemma_event_index(events: Seq<EventModel>, discriminator: Seq<u8>)
    ensures
        ({
            let n = event_index(events, discriminator);
            &&& 0 <= n <= events.len()
            &&& n < events.len() ==> events[n].discriminator == discriminator
            &&& forall|i: int| 0 <= i < n ==> (#[trigger] events[i]).discriminator != discriminator
        }),
    decreases events.len(),
{
    if events.len() > 0 && events[0].discriminator != discriminator {
        let rest = events.drop_first();
        lemma_event_index(rest, discriminator);
        assert forall|i: int| 0 <= i < event_index(events, discriminator) implies (
        #[trigger] events[i]).discriminator != discriminator by {
            if i > 0 {
                assert(rest[i - 1] == events[i]);
            }
        }
    }
}

impl DecoderModel {
    /// The rules by which this decoder reads values.
    pub open spec fn rules(self) -> Rules {
        guarded(self.types)
    }

    /// How many definitions can be entered one inside the other.
    pub open spec fn depth(self) -> nat {
        self.types.dom().len()
    }

    /// The fields of the struct called `name`.
    pub open spec fn fields(self, name: Seq<char>) -> Option<FieldsModel> {
        if self.types.dom().contains(name) {
            match self.types[name] {
                BodyModel::Struct { fields } => fields,
                _ => None,
            }
        } else {
            None
        }
    }

    /// The event that `bytes` hold: eight bytes that tell which event it is,
    /// then its fields. Bytes after the fields do not count.
    pub open spec fn event(self, bytes: Seq<u8>) -> Option<(Seq<char>, ValueModel)> {
        if bytes.len() < 8 {
            None
        } else {
            let i = event_index(self.events, bytes.take(8));
            if i >= self.events.len() {
                None
            } else {
                let name = self.events[i].name;
                match decode_fields(
                    self.rules(),
                    bytes.skip(8),
                    self.fields(name),
                    0,
                    self.depth(),
                ).result {
                    Ok(value) => Some((name, value)),
                    Err(_) => None,
                }
            }
        }
    }

    /// The event that a log line holds.
    pub open spec fn line(self, line: Seq<char>) -> Option<(Seq<char>, ValueModel)> {
        match payload(line) {
            Some(text) => match base64_bytes(text) {
                Some(bytes) => self.event(bytes),
                None => None,
            },
            None => None,
        }
    }

    /// The events that log lines hold, in the order of the lines.
    pub open spec fn logs(self, lines: Seq<Seq<char>>) -> Seq<(Seq<char>, ValueModel)>
        decreases lines.len(),
    {
        if lines.len() == 0 {
            Seq::empty()
        } else {
            let before = self.logs(lines.drop_last());
            match self.line(lines.last()) {
                Some(event) => before.push(event),
                None => before,
            }
        }
    }

    /// The names of the events in the order in which the IDL declares them.
    pub open spec fn names(self) -> Seq<Seq<char>> {
        self.events.map_values(|e: EventModel| e.name)
    }
}

} // verus!
