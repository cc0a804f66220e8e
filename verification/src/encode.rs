//! The encoder engine: a nesting-state machine driven by emit calls, one per
//! scalar, sequence-open/close or record-open/close. The machine tracks,
//! ahead of writing certain bytes, facts not yet known at the call site: an
//! in-progress sequence's declared length, and a record field's pending name.
//!
//! Every method's contract states the exact transition it makes on the
//! machine's model: which bytes are appended and how the frame stack changes,
//! or which error is returned (leaving the machine unchanged).

use vstd::prelude::*;

use crate::bytes::u32_from_i32;
use crate::bytes::u8_from_i8;
use crate::bytes::spec_u16_of_i16;
use crate::bytes::spec_u32_of_i32;
use crate::bytes::spec_u64_of_i64;
use crate::bytes::spec_u8_of_i8;
use crate::bytes::u16_from_i16;
use crate::bytes::u64_from_i64;
use crate::bytes::write_u16_be;
use crate::bytes::write_u32_be;
use crate::bytes::write_u64_be;
use crate::error::Error;
use crate::error::Misuse;
use crate::kind::Kind;
use crate::value::string_to_bytes;
use crate::value::Value;
use crate::value::ValueModel;
use crate::value::utf8_bytes;
use crate::value::valid_str;
use crate::wire::enc_str;
use crate::wire::id_byte;

verus! {

broadcast use vstd::std_specs::vec::group_vec_axioms;

// ---------------------------------------------------------------------------
// Nesting frames and the machine's model.
// ---------------------------------------------------------------------------

/// One level of the encoder's nesting stack.
pub enum LevelState {
    /// Writing a record at this level; `name` is a field name awaiting its
    /// value, if one is pending. Names are held as their UTF-8 wire bytes.
    InNamed { name: Option<Vec<u8>> },
    /// Writing an already-committed sequence at this level; every further
    /// element must have this kind.
    InList { kind: Kind },
    /// A sequence is about to be written at this level: its length is known,
    /// its element kind is not yet. `name` is `Some` when the sequence is
    /// itself a named field, `None` when it sits directly in a sequence.
    List { name: Option<Vec<u8>>, len: i32 },
}

/// The model of one frame: the same shape over byte sequences.
pub enum FrameModel {
    InNamed { name: Option<Seq<u8>> },
    InList { kind: Kind },
    List { name: Option<Seq<u8>>, len: i32 },
}

impl View for LevelState {
    type V = FrameModel;

    open spec fn view(&self) -> FrameModel {
        match self {
            LevelState::InNamed { name: None } => FrameModel::InNamed { name: None },
            LevelState::InNamed { name: Some(b) } => FrameModel::InNamed { name: Some(b@) },
            LevelState::InList { kind } => FrameModel::InList { kind: *kind },
            LevelState::List { name: None, len } => FrameModel::List { name: None, len: *len },
            LevelState::List { name: Some(b), len } => FrameModel::List {
                name: Some(b@),
                len: *len,
            },
        }
    }
}

/// The machine's model: the frame stack (innermost last) and the bytes
/// written so far.
pub struct EncModel {
    pub frames: Seq<FrameModel>,
    pub out: Seq<u8>,
}

// ---------------------------------------------------------------------------
// The transitions, stated mathematically.
// ---------------------------------------------------------------------------

/// Committing a non-sequence kind at the innermost level. In a record with a
/// pending name this writes the tag and the name; in a committed sequence it
/// polices homogeneity and writes nothing; at a pending sequence it commits
/// the sequence's framing, now that the first element's kind is known.
pub open spec fn spec_specify_kind(m: EncModel, tag: Kind) -> Result<EncModel, Error> {
    if tag.spec_is_list() {
        Err(Error::Misuse(Misuse::ListKindSpecified))
    } else if m.frames.len() == 0 {
        Err(Error::Misuse(Misuse::LevelUnderflow))
    } else {
        let rest = m.frames.drop_last();
        match m.frames.last() {
            FrameModel::InNamed { name: None } => Err(Error::Misuse(Misuse::ValueWithoutName)),
            FrameModel::InNamed { name: Some(nb) } => if nb.len() > 0xFFFF {
                Err(Error::UnrepresentableType("oversized string"))
            } else {
                Ok(
                    EncModel {
                        frames: rest.push(FrameModel::InNamed { name: None }) + (if tag
                            == Kind::Compound {
                            seq![FrameModel::InNamed { name: None }]
                        } else {
                            Seq::empty()
                        }),
                        out: m.out + seq![id_byte(tag)] + enc_str(nb),
                    },
                )
            },
            FrameModel::InList { kind } => if kind != tag {
                Err(Error::HeterogenousList { original: kind, new: tag })
            } else {
                Ok(
                    EncModel {
                        frames: m.frames + (if tag == Kind::Compound {
                            seq![FrameModel::InNamed { name: None }]
                        } else {
                            Seq::empty()
                        }),
                        out: m.out,
                    },
                )
            },
            FrameModel::List { name: Some(nb), len } => if nb.len() > 0xFFFF {
                Err(Error::UnrepresentableType("oversized string"))
            } else {
                Ok(
                    EncModel {
                        frames: rest.push(FrameModel::InNamed { name: None }).push(
                            FrameModel::InList { kind: tag },
                        ) + (if tag == Kind::Compound {
                            seq![FrameModel::InNamed { name: None }]
                        } else {
                            Seq::empty()
                        }),
                        out: m.out + crate::wire::spec_commit_header(nb, len, tag),
                    },
                )
            },
            FrameModel::List { name: None, .. } => Err(Error::Misuse(Misuse::NestedPendingList)),
        }
    }
}

/// Opening a sequence of known length, before its element kind is known.
pub open spec fn spec_open_list(m: EncModel, len: i32) -> Result<EncModel, Error> {
    if m.frames.len() == 0 {
        Err(Error::Misuse(Misuse::LevelUnderflow))
    } else {
        let rest = m.frames.drop_last();
        match m.frames.last() {
            FrameModel::InNamed { name: None } => Err(Error::Misuse(Misuse::ValueWithoutName)),
            FrameModel::InNamed { name: Some(nb) } => Ok(
                EncModel {
                    frames: rest.push(FrameModel::List { name: Some(nb), len }),
                    out: m.out,
                },
            ),
            FrameModel::InList { kind } => if kind.spec_is_list() {
                Ok(
                    EncModel {
                        frames: rest.push(FrameModel::List { name: None, len }),
                        out: m.out,
                    },
                )
            } else {
                Err(Error::HeterogenousList { original: kind, new: Kind::List })
            },
            FrameModel::List { .. } => Ok(
                EncModel { frames: m.frames.push(FrameModel::List { name: None, len }), out: m.out },
            ),
        }
    }
}

/// Setting the pending field name at a record level.
pub open spec fn spec_specify_name(m: EncModel, name: Seq<u8>) -> Result<EncModel, Error> {
    if m.frames.len() == 0 {
        Err(Error::Misuse(Misuse::LevelUnderflow))
    } else {
        match m.frames.last() {
            FrameModel::InNamed { name: None } => Ok(
                EncModel {
                    frames: m.frames.drop_last().push(FrameModel::InNamed { name: Some(name) }),
                    out: m.out,
                },
            ),
            FrameModel::InNamed { name: Some(_) } => Err(Error::Misuse(Misuse::NameTwice)),
            _ => Err(Error::Misuse(Misuse::NameInList)),
        }
    }
}

/// Withdrawing the pending field name, eliding the field entirely: how an
/// absent optional field is encoded, namely not at all.
pub open spec fn spec_cancel_name(m: EncModel) -> Result<EncModel, Error> {
    if m.frames.len() == 0 {
        Err(Error::Misuse(Misuse::LevelUnderflow))
    } else {
        match m.frames.last() {
            FrameModel::InNamed { name: _ } => Ok(
                EncModel {
                    frames: m.frames.drop_last().push(FrameModel::InNamed { name: None }),
                    out: m.out,
                },
            ),
            _ => Ok(m),
        }
    }
}

/// Closing the innermost level. A still-pending sequence is first committed
/// with element kind `End` (the empty sequence's framing); a record level
/// writes the terminator byte and must not hold a pending name; a committed
/// sequence writes nothing, its length having been written at commit time.
pub open spec fn spec_close_level(m: EncModel) -> Result<EncModel, Error> {
    if m.frames.len() == 0 {
        Err(Error::Misuse(Misuse::LevelUnderflow))
    } else {
        let committed = if m.frames.last() is List {
            spec_specify_kind(m, Kind::End)
        } else {
            Ok(m)
        };
        match committed {
            Err(e) => Err(e),
            Ok(m2) => if m2.frames.len() == 0 {
                Err(Error::Misuse(Misuse::LevelUnderflow))
            } else {
                match m2.frames.last() {
                    FrameModel::InNamed { name: Some(_) } => Err(
                        Error::Misuse(Misuse::NameWithoutValue),
                    ),
                    FrameModel::InNamed { name: None } => Ok(
                        EncModel { frames: m2.frames.drop_last(), out: m2.out + seq![0u8] },
                    ),
                    FrameModel::InList { .. } => Ok(
                        EncModel { frames: m2.frames.drop_last(), out: m2.out },
                    ),
                    FrameModel::List { .. } => Err(Error::Misuse(Misuse::NestedPendingList)),
                }
            },
        }
    }
}

// ---------------------------------------------------------------------------
// The executable machine.
// ---------------------------------------------------------------------------

impl LevelState {
    /// Whether this level is a still-pending sequence.
    pub fn is_list(&self) -> (r: bool)
        ensures
            r == (self@ is List),
    {
        match self {
            LevelState::List { .. } => true,
            _ => false,
        }
    }

    /// Open a sequence of the given length at this level: the replacement for
    /// this frame, and either a second frame to push above it or the failure.
    pub fn open_list(self, len: i32) -> (r: (Self, Result<Option<LevelState>, Error>))
        ensures
            match self@ {
                FrameModel::InNamed { name: None } => r.0@ == self@ && r.1 == Err::<
                    Option<LevelState>,
                    Error,
                >(Error::Misuse(Misuse::ValueWithoutName)),
                FrameModel::InNamed { name: Some(nb) } => r.0@ == (FrameModel::List {
                    name: Some(nb),
                    len,
                }) && (r.1 matches Ok(o) && o is None),
                FrameModel::InList { kind } => if kind.spec_is_list() {
                    r.0@ == (FrameModel::List { name: None, len }) && (r.1 matches Ok(o)
                        && o is None)
                } else {
                    r.0@ == self@ && r.1 == Err::<Option<LevelState>, Error>(
                        Error::HeterogenousList { original: kind, new: Kind::List },
                    )
                },
                FrameModel::List { .. } => r.0@ == self@ && (r.1 matches Ok(o) && (o matches Some(
                    f,
                ) && f@ == (FrameModel::List { name: None, len }))),
            },
    {
        match self {
            LevelState::InNamed { name: None } => (
                LevelState::InNamed { name: None },
                Err(Error::Misuse(Misuse::ValueWithoutName)),
            ),
            LevelState::InNamed { name: Some(name) } => (
                LevelState::List { name: Some(name), len },
                Ok(None),
            ),
            LevelState::InList { kind } => {
                if kind.is_list() {
                    (LevelState::List { name: None, len }, Ok(None))
                } else {
                    (
                        LevelState::InList { kind },
                        Err(Error::HeterogenousList { original: kind, new: Kind::List }),
                    )
                }
            },
            LevelState::List { name, len: l } => (
                LevelState::List { name, len: l },
                Ok(Some(LevelState::List { name: None, len })),
            ),
        }
    }
}

/// Append a bare string: two length bytes, then the bytes.
fn write_bare_string(out: &mut Vec<u8>, b: &Vec<u8>)
    requires
        b@.len() <= 0xFFFF,
    ensures
        final(out)@ == old(out)@ + enc_str(b@),
{
    write_u16_be(out, b.len() as u16);
    let mut i: usize = 0;
    while i < b.len()
        invariant
            i <= b@.len(),
            b@.len() <= 0xFFFF,
            out@ =~= old(out)@ + crate::bytes::u16_be(b@.len() as u16) + b@.subrange(0, i as int),
        decreases b@.len() - i,
    {
        out.push(b[i]);
        i = i + 1;
    }
    assert(out@ =~= old(out)@ + enc_str(b@));
}

/// Encode objects to the byte format. Not every host value is representable
/// (notably unsigned integers), so emitting may fail.
pub struct Encoder {
    pub writer: Vec<u8>,
    pub states: Vec<LevelState>,
}

impl Encoder {
    /// The machine's model: its frame stack and the bytes written so far.
    pub open spec fn model(self) -> EncModel {
        EncModel {
            frames: self.states@.map(|i: int, s: LevelState| s@),
            out: self.writer@,
        }
    }

    /// The byte string the root's name travels as.
    pub open spec fn spec_header_bytes(header: Option<String>) -> Seq<u8> {
        match header {
            Some(h) => utf8_bytes(h@),
            None => Seq::empty(),
        }
    }

    /// Create an encoder with an optional root name.
    pub fn new(header: Option<String>) -> (r: Encoder)
        ensures
            r.model().out == Seq::<u8>::empty(),
            r.model().frames =~= seq![
                FrameModel::InNamed { name: Some(Self::spec_header_bytes(header)) },
            ],
            valid_str(Self::spec_header_bytes(header)),
    {
        let name: Vec<u8> = match &header {
            Some(h) => string_to_bytes(h),
            None => Vec::new(),
        };
        let mut states: Vec<LevelState> = Vec::new();
        states.push(LevelState::InNamed { name: Some(name) });
        Encoder { writer: Vec::new(), states }
    }

    /// Consume this encoder and return the bytes written.
    pub fn into_inner(self) -> (r: Vec<u8>)
        ensures
            r@ == self.model().out,
    {
        self.writer
    }

    /// Commit a non-sequence kind at the innermost level; see
    /// `spec_specify_kind` for the exact transition.
    pub fn specify_kind(&mut self, tag: Kind) -> (r: Result<(), Error>)
        ensures
            match r {
                Ok(()) => spec_specify_kind(old(self).model(), tag) == Ok::<EncModel, Error>(
                    final(self).model(),
                ),
                Err(e) => spec_specify_kind(old(self).model(), tag) == Err::<EncModel, Error>(e)
                    && final(self).model() == old(self).model(),
            },
    {
        if tag.is_list() {
            return Err(Error::Misuse(Misuse::ListKindSpecified));
        }
        if self.states.len() == 0 {
            return Err(Error::Misuse(Misuse::LevelUnderflow));
        }
        let ghost m0 = self.model();
        let top = self.states.pop().unwrap();
        let ghost rest = m0.frames.drop_last();
        proof {
            assert(self.states@.map(|i: int, s: LevelState| s@) =~= rest);
        }
        match top {
            LevelState::InNamed { name: None } => {
                self.states.push(LevelState::InNamed { name: None });
                proof {
                    assert(self.model().frames =~= m0.frames);
                }
                Err(Error::Misuse(Misuse::ValueWithoutName))
            },
            LevelState::InNamed { name: Some(nb) } => {
                if nb.len() > 0xFFFF {
                    self.states.push(LevelState::InNamed { name: Some(nb) });
                    proof {
                        assert(self.model().frames =~= m0.frames);
                    }
                    return Err(Error::UnrepresentableType("oversized string"));
                }
                self.writer.push(u8_from_i8(tag.to_id()));
                write_bare_string(&mut self.writer, &nb);
                self.states.push(LevelState::InNamed { name: None });
                if tag == Kind::Compound {
                    self.states.push(LevelState::InNamed { name: None });
                }
                proof {
                    assert(id_byte(tag) == spec_u8_of_i8(tag.spec_to_id()));
                    assert(self.writer@ =~= m0.out + seq![id_byte(tag)] + enc_str(nb@));
                    assert(self.model().frames =~= rest.push(FrameModel::InNamed { name: None })
                        + (if tag == Kind::Compound {
                        seq![FrameModel::InNamed { name: None }]
                    } else {
                        Seq::<FrameModel>::empty()
                    }));
                }
                Ok(())
            },
            LevelState::InList { kind } => {
                if kind != tag {
                    self.states.push(LevelState::InList { kind });
                    proof {
                        assert(self.model().frames =~= m0.frames);
                    }
                    return Err(Error::HeterogenousList { original: kind, new: tag });
                }
                self.states.push(LevelState::InList { kind });
                if tag == Kind::Compound {
                    self.states.push(LevelState::InNamed { name: None });
                }
                proof {
                    assert(self.model().frames =~= m0.frames + (if tag == Kind::Compound {
                        seq![FrameModel::InNamed { name: None }]
                    } else {
                        Seq::<FrameModel>::empty()
                    }));
                }
                Ok(())
            },
            LevelState::List { name: Some(nb), len } => {
                if nb.len() > 0xFFFF {
                    self.states.push(LevelState::List { name: Some(nb), len });
                    proof {
                        assert(self.model().frames =~= m0.frames);
                    }
                    return Err(Error::UnrepresentableType("oversized string"));
                }
                let container = tag.list_container();
                self.writer.push(u8_from_i8(container.to_id()));
                write_bare_string(&mut self.writer, &nb);
                if container == Kind::List {
                    self.writer.push(u8_from_i8(tag.to_id()));
                }
                write_u32_be(&mut self.writer, u32_from_i32(len));
                self.states.push(LevelState::InNamed { name: None });
                self.states.push(LevelState::InList { kind: tag });
                if tag == Kind::Compound {
                    self.states.push(LevelState::InNamed { name: None });
                }
                proof {
                    assert(self.writer@ =~= m0.out + crate::wire::spec_commit_header(
                        nb@,
                        len,
                        tag,
                    ));
                    assert(self.model().frames =~= rest.push(FrameModel::InNamed { name: None })
                        .push(FrameModel::InList { kind: tag }) + (if tag == Kind::Compound {
                        seq![FrameModel::InNamed { name: None }]
                    } else {
                        Seq::<FrameModel>::empty()
                    }));
                }
                Ok(())
            },
            LevelState::List { name: None, len } => {
                self.states.push(LevelState::List { name: None, len });
                proof {
                    assert(self.model().frames =~= m0.frames);
                }
                Err(Error::Misuse(Misuse::NestedPendingList))
            },
        }
    }

    /// Open a sequence of known length at the innermost level; see
    /// `spec_open_list` for the exact transition.
    pub fn open_list(&mut self, len: i32) -> (r: Result<(), Error>)
        ensures
            match r {
                Ok(()) => spec_open_list(old(self).model(), len) == Ok::<EncModel, Error>(
                    final(self).model(),
                ),
                Err(e) => spec_open_list(old(self).model(), len) == Err::<EncModel, Error>(e)
                    && final(self).model() == old(self).model(),
            },
    {
        if self.states.len() == 0 {
            return Err(Error::Misuse(Misuse::LevelUnderflow));
        }
        let ghost m0 = self.model();
        let top = self.states.pop().unwrap();
        let ghost rest = m0.frames.drop_last();
        proof {
            assert(self.states@.map(|i: int, s: LevelState| s@) =~= rest);
        }
        let (push1, outcome) = top.open_list(len);
        self.states.push(push1);
        match outcome {
            Err(e) => {
                proof {
                    assert(self.model().frames =~= m0.frames);
                }
                Err(e)
            },
            Ok(None) => {
                proof {
                    assert(self.model().frames =~= rest.push(push1@));
                }
                Ok(())
            },
            Ok(Some(push2)) => {
                self.states.push(push2);
                proof {
                    assert(self.model().frames =~= rest.push(push1@).push(push2@));
                    assert(rest.push(push1@) =~= m0.frames);
                }
                Ok(())
            },
        }
    }

    /// Set the pending field name at the innermost record level; see
    /// `spec_specify_name` for the exact transition.
    pub fn specify_name(&mut self, name: String) -> (r: Result<(), Error>)
        ensures
            match r {
                Ok(()) => spec_specify_name(old(self).model(), utf8_bytes(name@)) == Ok::<
                    EncModel,
                    Error,
                >(final(self).model()) && valid_str(utf8_bytes(name@)),
                Err(e) => spec_specify_name(old(self).model(), utf8_bytes(name@)) == Err::<
                    EncModel,
                    Error,
                >(e) && final(self).model() == old(self).model(),
            },
    {
        if self.states.len() == 0 {
            return Err(Error::Misuse(Misuse::LevelUnderflow));
        }
        let ghost m0 = self.model();
        let top = self.states.pop().unwrap();
        let ghost rest = m0.frames.drop_last();
        proof {
            assert(self.states@.map(|i: int, s: LevelState| s@) =~= rest);
        }
        match top {
            LevelState::InNamed { name: None } => {
                let nb = string_to_bytes(&name);
                self.states.push(LevelState::InNamed { name: Some(nb) });
                proof {
                    assert(self.model().frames =~= rest.push(
                        FrameModel::InNamed { name: Some(utf8_bytes(name@)) },
                    ));
                }
                Ok(())
            },
            LevelState::InNamed { name: Some(prev) } => {
                self.states.push(LevelState::InNamed { name: Some(prev) });
                proof {
                    assert(self.model().frames =~= m0.frames);
                }
                Err(Error::Misuse(Misuse::NameTwice))
            },
            other => {
                self.states.push(other);
                proof {
                    assert(self.model().frames =~= m0.frames);
                }
                Err(Error::Misuse(Misuse::NameInList))
            },
        }
    }

    /// Withdraw the pending field name, eliding the field; see
    /// `spec_cancel_name` for the exact transition.
    pub fn cancel_name(&mut self) -> (r: Result<(), Error>)
        ensures
            match r {
                Ok(()) => spec_cancel_name(old(self).model()) == Ok::<EncModel, Error>(
                    final(self).model(),
                ),
                Err(e) => spec_cancel_name(old(self).model()) == Err::<EncModel, Error>(e)
                    && final(self).model() == old(self).model(),
            },
    {
        if self.states.len() == 0 {
            return Err(Error::Misuse(Misuse::LevelUnderflow));
        }
        let ghost m0 = self.model();
        let top = self.states.pop().unwrap();
        let ghost rest = m0.frames.drop_last();
        proof {
            assert(self.states@.map(|i: int, s: LevelState| s@) =~= rest);
        }
        match top {
            LevelState::InNamed { name: _ } => {
                self.states.push(LevelState::InNamed { name: None });
                proof {
                    assert(self.model().frames =~= rest.push(FrameModel::InNamed { name: None }));
                }
                Ok(())
            },
            other => {
                self.states.push(other);
                proof {
                    assert(self.model().frames =~= m0.frames);
                }
                Ok(())
            },
        }
    }

    /// Close the innermost level; see `spec_close_level` for the exact
    /// transition.
    pub fn close_level(&mut self) -> (r: Result<(), Error>)
        ensures
            match r {
                Ok(()) => spec_close_level(old(self).model()) == Ok::<EncModel, Error>(
                    final(self).model(),
                ),
                Err(e) => spec_close_level(old(self).model()) == Err::<EncModel, Error>(e),
            },
    {
        if self.states.len() == 0 {
            return Err(Error::Misuse(Misuse::LevelUnderflow));
        }
        let is_pending = {
            let n = self.states.len();
            self.states[n - 1].is_list()
        };
        if is_pending {
            match self.specify_kind(Kind::End) {
                Ok(()) => (),
                Err(e) => {
                    return Err(e);
                },
            }
        }
        if self.states.len() == 0 {
            return Err(Error::Misuse(Misuse::LevelUnderflow));
        }
        let ghost m2 = self.model();
        let top = self.states.pop().unwrap();
        proof {
            assert(self.states@.map(|i: int, s: LevelState| s@) =~= m2.frames.drop_last());
        }
        match top {
            LevelState::InNamed { name: Some(nb) } => {
                self.states.push(LevelState::InNamed { name: Some(nb) });
                Err(Error::Misuse(Misuse::NameWithoutValue))
            },
            LevelState::InNamed { name: None } => {
                self.writer.push(0u8);
                proof {
                    assert(self.writer@ =~= m2.out + seq![0u8]);
                }
                Ok(())
            },
            LevelState::InList { .. } => Ok(()),
            LevelState::List { name, len } => {
                self.states.push(LevelState::List { name, len });
                Err(Error::Misuse(Misuse::NestedPendingList))
            },
        }
    }
}

// ---------------------------------------------------------------------------
// Emitting scalar values.
// ---------------------------------------------------------------------------

/// The transition of committing a scalar kind and appending its payload.
pub open spec fn spec_emit(m: EncModel, tag: Kind, payload: Seq<u8>) -> Result<EncModel, Error> {
    match spec_specify_kind(m, tag) {
        Ok(m2) => Ok(EncModel { frames: m2.frames, out: m2.out + payload }),
        Err(e) => Err(e),
    }
}

/// The transition of committing a string value: its length is checked only
/// after the kind has been committed.
pub open spec fn spec_emit_str(m: EncModel, sb: Seq<u8>) -> Result<EncModel, Error> {
    match spec_specify_kind(m, Kind::String) {
        Ok(m2) => if sb.len() > 0xFFFF {
            Err(Error::UnrepresentableType("oversized string"))
        } else {
            Ok(EncModel { frames: m2.frames, out: m2.out + enc_str(sb) })
        },
        Err(e) => Err(e),
    }
}

impl Encoder {
    pub fn emit_i8(&mut self, v: i8) -> (r: Result<(), Error>)
        ensures
            match r {
                Ok(()) => spec_emit(old(self).model(), Kind::I8, seq![spec_u8_of_i8(v)]) == Ok::<
                    EncModel,
                    Error,
                >(final(self).model()),
                Err(e) => spec_emit(old(self).model(), Kind::I8, seq![spec_u8_of_i8(v)]) == Err::<
                    EncModel,
                    Error,
                >(e) && final(self).model() == old(self).model(),
            },
    {
        let ghost m0 = self.model();
        match self.specify_kind(Kind::I8) {
            Err(e) => Err(e),
            Ok(()) => {
                self.writer.push(u8_from_i8(v));
                proof {
                    let m2 = spec_specify_kind(m0, Kind::I8)->Ok_0;
                    assert(self.writer@ =~= m2.out + seq![spec_u8_of_i8(v)]);
                }
                Ok(())
            },
        }
    }

    pub fn emit_i16(&mut self, v: i16) -> (r: Result<(), Error>)
        ensures
            match r {
                Ok(()) => spec_emit(old(self).model(), Kind::I16, crate::bytes::u16_be(
                    spec_u16_of_i16(v),
                )) == Ok::<EncModel, Error>(final(self).model()),
                Err(e) => spec_emit(old(self).model(), Kind::I16, crate::bytes::u16_be(
                    spec_u16_of_i16(v),
                )) == Err::<EncModel, Error>(e) && final(self).model() == old(self).model(),
            },
    {
        let ghost m0 = self.model();
        match self.specify_kind(Kind::I16) {
            Err(e) => Err(e),
            Ok(()) => {
                write_u16_be(&mut self.writer, u16_from_i16(v));
                Ok(())
            },
        }
    }

    pub fn emit_i32(&mut self, v: i32) -> (r: Result<(), Error>)
        ensures
            match r {
                Ok(()) => spec_emit(old(self).model(), Kind::I32, crate::bytes::u32_be(
                    spec_u32_of_i32(v),
                )) == Ok::<EncModel, Error>(final(self).model()),
                Err(e) => spec_emit(old(self).model(), Kind::I32, crate::bytes::u32_be(
                    spec_u32_of_i32(v),
                )) == Err::<EncModel, Error>(e) && final(self).model() == old(self).model(),
            },
    {
        let ghost m0 = self.model();
        match self.specify_kind(Kind::I32) {
            Err(e) => Err(e),
            Ok(()) => {
                write_u32_be(&mut self.writer, u32_from_i32(v));
                Ok(())
            },
        }
    }

    pub fn emit_i64(&mut self, v: i64) -> (r: Result<(), Error>)
        ensures
            match r {
                Ok(()) => spec_emit(old(self).model(), Kind::I64, crate::bytes::u64_be(
                    spec_u64_of_i64(v),
                )) == Ok::<EncModel, Error>(final(self).model()),
                Err(e) => spec_emit(old(self).model(), Kind::I64, crate::bytes::u64_be(
                    spec_u64_of_i64(v),
                )) == Err::<EncModel, Error>(e) && final(self).model() == old(self).model(),
            },
    {
        let ghost m0 = self.model();
        match self.specify_kind(Kind::I64) {
            Err(e) => Err(e),
            Ok(()) => {
                write_u64_be(&mut self.writer, u64_from_i64(v));
                Ok(())
            },
        }
    }

    /// A boolean travels as a byte: 1 for true, 0 for false.
    pub fn emit_bool(&mut self, v: bool) -> (r: Result<(), Error>)
        ensures
            match r {
                Ok(()) => spec_emit(
                    old(self).model(),
                    Kind::I8,
                    seq![spec_u8_of_i8(if v { 1i8 } else { 0i8 })],
                ) == Ok::<EncModel, Error>(final(self).model()),
                Err(e) => spec_emit(
                    old(self).model(),
                    Kind::I8,
                    seq![spec_u8_of_i8(if v { 1i8 } else { 0i8 })],
                ) == Err::<EncModel, Error>(e) && final(self).model() == old(self).model(),
            },
    {
        self.emit_i8(if v { 1i8 } else { 0i8 })
    }

    /// The IEEE-754 bits of a 32-bit float, big-endian.
    pub fn emit_float_bits(&mut self, bits: u32) -> (r: Result<(), Error>)
        ensures
            match r {
                Ok(()) => spec_emit(old(self).model(), Kind::F32, crate::bytes::u32_be(bits))
                    == Ok::<EncModel, Error>(final(self).model()),
                Err(e) => spec_emit(old(self).model(), Kind::F32, crate::bytes::u32_be(bits))
                    == Err::<EncModel, Error>(e) && final(self).model() == old(self).model(),
            },
    {
        let ghost m0 = self.model();
        match self.specify_kind(Kind::F32) {
            Err(e) => Err(e),
            Ok(()) => {
                write_u32_be(&mut self.writer, bits);
                Ok(())
            },
        }
    }

    /// The IEEE-754 bits of a 64-bit float, big-endian.
    pub fn emit_double_bits(&mut self, bits: u64) -> (r: Result<(), Error>)
        ensures
            match r {
                Ok(()) => spec_emit(old(self).model(), Kind::F64, crate::bytes::u64_be(bits))
                    == Ok::<EncModel, Error>(final(self).model()),
                Err(e) => spec_emit(old(self).model(), Kind::F64, crate::bytes::u64_be(bits))
                    == Err::<EncModel, Error>(e) && final(self).model() == old(self).model(),
            },
    {
        let ghost m0 = self.model();
        match self.specify_kind(Kind::F64) {
            Err(e) => Err(e),
            Ok(()) => {
                write_u64_be(&mut self.writer, bits);
                Ok(())
            },
        }
    }

    /// A string value: the kind is committed first, then the string's length
    /// is checked against the two-byte length field.
    pub fn emit_str(&mut self, v: &String) -> (r: Result<(), Error>)
        ensures
            match r {
                Ok(()) => spec_emit_str(old(self).model(), utf8_bytes(v@)) == Ok::<EncModel, Error>(
                    final(self).model(),
                ),
                Err(e) => spec_emit_str(old(self).model(), utf8_bytes(v@)) == Err::<EncModel, Error>(
                    e,
                ),
            },
    {
        let ghost m0 = self.model();
        match self.specify_kind(Kind::String) {
            Err(e) => Err(e),
            Ok(()) => {
                let sb = string_to_bytes(v);
                if sb.len() > 0xFFFF {
                    return Err(Error::UnrepresentableType("oversized string"));
                }
                write_bare_string(&mut self.writer, &sb);
                Ok(())
            },
        }
    }

    /// Unsigned 8-bit values have no encoding in the format.
    pub fn emit_u8(&mut self, _v: u8) -> (r: Result<(), Error>)
        ensures
            r == Err::<(), Error>(Error::UnrepresentableType("u8")),
            final(self).model() == old(self).model(),
    {
        Err(Error::UnrepresentableType("u8"))
    }

    /// Unsigned 16-bit values have no encoding in the format.
    pub fn emit_u16(&mut self, _v: u16) -> (r: Result<(), Error>)
        ensures
            r == Err::<(), Error>(Error::UnrepresentableType("u16")),
            final(self).model() == old(self).model(),
    {
        Err(Error::UnrepresentableType("u16"))
    }

    /// Unsigned 32-bit values have no encoding in the format.
    pub fn emit_u32(&mut self, _v: u32) -> (r: Result<(), Error>)
        ensures
            r == Err::<(), Error>(Error::UnrepresentableType("u32")),
            final(self).model() == old(self).model(),
    {
        Err(Error::UnrepresentableType("u32"))
    }

    /// Unsigned 64-bit values have no encoding in the format.
    pub fn emit_u64(&mut self, _v: u64) -> (r: Result<(), Error>)
        ensures
            r == Err::<(), Error>(Error::UnrepresentableType("u64")),
            final(self).model() == old(self).model(),
    {
        Err(Error::UnrepresentableType("u64"))
    }

    /// Single characters have no encoding in the format.
    pub fn emit_char(&mut self, _v: char) -> (r: Result<(), Error>)
        ensures
            r == Err::<(), Error>(Error::UnrepresentableType("char")),
            final(self).model() == old(self).model(),
    {
        Err(Error::UnrepresentableType("char"))
    }

    /// The bare unit value has no encoding in the format (an empty record has).
    pub fn emit_unit(&mut self) -> (r: Result<(), Error>)
        ensures
            r == Err::<(), Error>(Error::UnrepresentableType("unit")),
            final(self).model() == old(self).model(),
    {
        Err(Error::UnrepresentableType("unit"))
    }
}

// ---------------------------------------------------------------------------
// Driving the machine from a value tree.
// ---------------------------------------------------------------------------

/// What emitting one whole value does to the machine, by the innermost frame:
/// in a record it encodes as a named field and clears the pending name; in a
/// committed sequence it encodes as a bare element; at a pending sequence it
/// commits the sequence's framing. An oversized sequence is refused before
/// the frame is consulted.
pub open spec fn spec_encode_value_at(m: EncModel, mv: ValueModel) -> Result<EncModel, Error> {
    if mv.is_sequence() && crate::wire::seq_model_len(mv) > 0x7FFFFFFF {
        Err(Error::UnrepresentableType("oversized list"))
    } else if m.frames.len() == 0 {
        Err(Error::Misuse(Misuse::LevelUnderflow))
    } else {
        let rest = m.frames.drop_last();
        match m.frames.last() {
            FrameModel::InNamed { name: None } => Err(Error::Misuse(Misuse::ValueWithoutName)),
            FrameModel::InNamed { name: Some(nb) } => match crate::wire::spec_enc_field(nb, mv) {
                Ok(b) => Ok(
                    EncModel {
                        frames: rest.push(FrameModel::InNamed { name: None }),
                        out: m.out + b,
                    },
                ),
                Err(e) => Err(e),
            },
            FrameModel::InList { kind } => match crate::wire::spec_enc_elem(kind, mv) {
                Ok(b) => Ok(EncModel { frames: m.frames, out: m.out + b }),
                Err(e) => Err(e),
            },
            FrameModel::List { name: Some(nb), len } => match crate::wire::spec_enc_first(
                nb,
                len,
                mv,
            ) {
                Ok(b) => Ok(
                    EncModel {
                        frames: rest.push(FrameModel::InNamed { name: None }).push(
                            FrameModel::InList { kind: mv.kind_of() },
                        ),
                        out: m.out + b,
                    },
                ),
                Err(e) => Err(e),
            },
            FrameModel::List { name: None, .. } => Err(crate::wire::spec_nested_seq_err(mv)),
        }
    }
}

/// Emitting a scalar's kind and payload is exactly what encoding that scalar
/// value does to the machine.
proof fn lemma_emit_matches(m: EncModel, mv: ValueModel, payload: Seq<u8>)
    requires
        match mv {
            ValueModel::Byte(_) => true,
            ValueModel::Short(_) => true,
            ValueModel::Int(_) => true,
            ValueModel::Long(_) => true,
            ValueModel::Float(_) => true,
            ValueModel::Double(_) => true,
            _ => false,
        },
        crate::wire::spec_enc_payload(mv) == Ok::<Seq<u8>, Error>(payload),
    ensures
        spec_emit(m, mv.kind_of(), payload) == spec_encode_value_at(m, mv),
{
    let tag = mv.kind_of();
    if m.frames.len() == 0 {
    } else {
        let rest = m.frames.drop_last();
        match m.frames.last() {
            FrameModel::InNamed { name: None } => {},
            FrameModel::InNamed { name: Some(nb) } => {
                if nb.len() <= 0xFFFF {
                    assert(m.out + seq![id_byte(tag)] + enc_str(nb) + payload =~= m.out + (seq![
                        id_byte(tag),
                    ] + enc_str(nb) + payload));
                    assert(rest.push(FrameModel::InNamed { name: None }) + Seq::<
                        FrameModel,
                    >::empty() =~= rest.push(FrameModel::InNamed { name: None }));
                }
            },
            FrameModel::InList { kind } => {
                if kind == tag {
                    assert(m.frames + Seq::<FrameModel>::empty() =~= m.frames);
                }
            },
            FrameModel::List { name: Some(nb), len } => {
                if nb.len() <= 0xFFFF {
                    assert(m.out + crate::wire::spec_commit_header(nb, len, tag) + payload =~= m.out
                        + (crate::wire::spec_commit_header(nb, len, tag) + payload));
                    assert(rest.push(FrameModel::InNamed { name: None }).push(
                        FrameModel::InList { kind: tag },
                    ) + Seq::<FrameModel>::empty() =~= rest.push(
                        FrameModel::InNamed { name: None },
                    ).push(FrameModel::InList { kind: tag }));
                }
            },
            FrameModel::List { name: None, .. } => {},
        }
    }
}

/// Emitting a string is exactly what encoding a string value does.
proof fn lemma_emit_str_matches(m: EncModel, sb: Seq<u8>)
    ensures
        spec_emit_str(m, sb) == spec_encode_value_at(m, ValueModel::String(sb)),
{
    let mv = ValueModel::String(sb);
    if m.frames.len() == 0 {
    } else {
        let rest = m.frames.drop_last();
        match m.frames.last() {
            FrameModel::InNamed { name: None } => {},
            FrameModel::InNamed { name: Some(nb) } => {
                if nb.len() <= 0xFFFF && sb.len() <= 0xFFFF {
                    assert(m.out + seq![id_byte(Kind::String)] + enc_str(nb) + enc_str(sb) =~= m.out
                        + (seq![id_byte(Kind::String)] + enc_str(nb) + enc_str(sb)));
                    assert(rest.push(FrameModel::InNamed { name: None }) + Seq::<
                        FrameModel,
                    >::empty() =~= rest.push(FrameModel::InNamed { name: None }));
                }
            },
            FrameModel::InList { kind } => {
                if kind == Kind::String && sb.len() <= 0xFFFF {
                    assert(m.frames + Seq::<FrameModel>::empty() =~= m.frames);
                }
            },
            FrameModel::List { name: Some(nb), len } => {
                if nb.len() <= 0xFFFF && sb.len() <= 0xFFFF {
                    assert(m.out + crate::wire::spec_commit_header(nb, len, Kind::String) + enc_str(
                        sb,
                    ) =~= m.out + (crate::wire::spec_commit_header(nb, len, Kind::String) + enc_str(
                        sb,
                    )));
                    assert(rest.push(FrameModel::InNamed { name: None }).push(
                        FrameModel::InList { kind: Kind::String },
                    ) + Seq::<FrameModel>::empty() =~= rest.push(
                        FrameModel::InNamed { name: None },
                    ).push(FrameModel::InList { kind: Kind::String }));
                }
            },
            FrameModel::List { name: None, .. } => {},
        }
    }
}

/// Append the bare payloads of bytes already inside a committed byte-array
/// level: each commit is accepted, since the kinds agree.
fn encode_i8s_onto(enc: &mut Encoder, xs: &Vec<i8>, i: usize)
    requires
        i <= xs@.len(),
        old(enc).model().frames.len() > 0,
        old(enc).model().frames.last() == (FrameModel::InList { kind: Kind::I8 }),
    ensures
        final(enc).model().frames == old(enc).model().frames,
        final(enc).model().out == old(enc).model().out + crate::wire::enc_i8s(
            xs@.skip(i as int),
        ),
    decreases xs@.len() - i,
{
    let ghost m0 = enc.model();
    if i == xs.len() {
        assert(m0.out + crate::wire::enc_i8s(xs@.skip(i as int)) =~= m0.out);
        return ;
    }
    match enc.emit_i8(xs[i]) {
        Err(_) => {
            proof {
                assert(m0.frames + Seq::<FrameModel>::empty() =~= m0.frames);
            }
            assert(false);
        },
        Ok(()) => {
            proof {
                assert(m0.frames + Seq::<FrameModel>::empty() =~= m0.frames);
                assert(enc.model().frames == m0.frames);
            }
            encode_i8s_onto(enc, xs, i + 1);
            proof {
                assert(xs@.skip(i as int).drop_first() =~= xs@.skip(i + 1));
                assert(enc.model().out =~= m0.out + crate::wire::enc_i8s(xs@.skip(i as int)));
            }
        },
    }
}

/// Append the bare payloads of a committed int-array level's elements.
fn encode_i32s_onto(enc: &mut Encoder, xs: &Vec<i32>, i: usize)
    requires
        i <= xs@.len(),
        old(enc).model().frames.len() > 0,
        old(enc).model().frames.last() == (FrameModel::InList { kind: Kind::I32 }),
    ensures
        final(enc).model().frames == old(enc).model().frames,
        final(enc).model().out == old(enc).model().out + crate::wire::enc_i32s(
            xs@.skip(i as int),
        ),
    decreases xs@.len() - i,
{
    let ghost m0 = enc.model();
    if i == xs.len() {
        assert(m0.out + crate::wire::enc_i32s(xs@.skip(i as int)) =~= m0.out);
        return ;
    }
    match enc.emit_i32(xs[i]) {
        Err(_) => {
            proof {
                assert(m0.frames + Seq::<FrameModel>::empty() =~= m0.frames);
            }
            assert(false);
        },
        Ok(()) => {
            proof {
                assert(m0.frames + Seq::<FrameModel>::empty() =~= m0.frames);
                assert(enc.model().frames == m0.frames);
            }
            encode_i32s_onto(enc, xs, i + 1);
            proof {
                assert(xs@.skip(i as int).drop_first() =~= xs@.skip(i + 1));
                assert(enc.model().out =~= m0.out + crate::wire::enc_i32s(xs@.skip(i as int)));
            }
        },
    }
}

/// Append the bare payloads of a committed long-array level's elements.
fn encode_i64s_onto(enc: &mut Encoder, xs: &Vec<i64>, i: usize)
    requires
        i <= xs@.len(),
        old(enc).model().frames.len() > 0,
        old(enc).model().frames.last() == (FrameModel::InList { kind: Kind::I64 }),
    ensures
        final(enc).model().frames == old(enc).model().frames,
        final(enc).model().out == old(enc).model().out + crate::wire::enc_i64s(
            xs@.skip(i as int),
        ),
    decreases xs@.len() - i,
{
    let ghost m0 = enc.model();
    if i == xs.len() {
        assert(m0.out + crate::wire::enc_i64s(xs@.skip(i as int)) =~= m0.out);
        return ;
    }
    match enc.emit_i64(xs[i]) {
        Err(_) => {
            proof {
                assert(m0.frames + Seq::<FrameModel>::empty() =~= m0.frames);
            }
            assert(false);
        },
        Ok(()) => {
            proof {
                assert(m0.frames + Seq::<FrameModel>::empty() =~= m0.frames);
                assert(enc.model().frames == m0.frames);
            }
            encode_i64s_onto(enc, xs, i + 1);
            proof {
                assert(xs@.skip(i as int).drop_first() =~= xs@.skip(i + 1));
                assert(enc.model().out =~= m0.out + crate::wire::enc_i64s(xs@.skip(i as int)));
            }
        },
    }
}

/// Encode the elements of a committed list level from position `i` on.
fn encode_elems_onto(enc: &mut Encoder, elems: &Vec<Value>, i: usize, Ghost(ek): Ghost<Kind>) -> (r:
    Result<(), Error>)
    requires
        i <= elems@.len(),
        old(enc).model().frames.len() > 0,
        old(enc).model().frames.last() == (FrameModel::InList { kind: ek }),
    ensures
        match r {
            Ok(()) => crate::wire::spec_enc_elems(
                ek,
                crate::value::value_models(elems@).skip(i as int),
            ) matches Ok(b) && final(enc).model().frames == old(enc).model().frames
                && final(enc).model().out == old(enc).model().out + b,
            Err(e) => crate::wire::spec_enc_elems(
                ek,
                crate::value::value_models(elems@).skip(i as int),
            ) == Err::<Seq<u8>, Error>(e),
        },
    decreases elems, elems@.len() - i,
{
    let ghost m0 = enc.model();
    let ghost ms = crate::value::value_models(elems@);
    proof {
        crate::value::lemma_value_models_index(elems@);
    }
    if i == elems.len() {
        assert(ms.skip(i as int) =~= Seq::<ValueModel>::empty());
        assert(m0.out + crate::wire::spec_enc_elems(ek, ms.skip(i as int))->Ok_0 =~= m0.out);
        return Ok(());
    }
    proof {
        assert(ms.skip(i as int)[0] == elems@[i as int]@);
        lemma_at_inlist(m0, ek, elems@[i as int]@);
    }
    match encode_value_onto(enc, &elems[i]) {
        Err(e) => {
            Err(e)
        },
        Ok(()) => {
            proof {
                assert(enc.model().frames == m0.frames);
                assert(ms.skip(i as int).drop_first() =~= ms.skip(i + 1));
                assert(crate::wire::spec_enc_elems(ek, ms.skip(i as int).drop_first())
                    == crate::wire::spec_enc_elems(ek, ms.skip(i + 1)));
            }
            let ghost b0 = crate::wire::spec_enc_elem(ek, ms.skip(i as int)[0])->Ok_0;
            match encode_elems_onto(enc, elems, i + 1, Ghost(ek)) {
                Err(e) => Err(e),
                Ok(()) => {
                    proof {
                        assert(ms.skip(i as int).drop_first() =~= ms.skip(i + 1));
                        assert(crate::wire::spec_enc_elems(ek, ms.skip(i as int).drop_first())
                            == crate::wire::spec_enc_elems(ek, ms.skip(i + 1)));
                        let brest = crate::wire::spec_enc_elems(ek, ms.skip(i + 1))->Ok_0;
                        assert(enc.model().frames == m0.frames);
                        assert(enc.model().out =~= m0.out + (b0 + brest));
                        assert(crate::wire::spec_enc_elems(ek, ms.skip(i as int)) matches Ok(b)
                            && b == b0 + brest);
                    }
                    Ok(())
                },
            }
        },
    }
}

/// Encode a record's fields from position `i` on, at a record level with no
/// pending name.
fn encode_fields_onto(enc: &mut Encoder, fields: &Vec<(String, Value)>, i: usize) -> (r: Result<
    (),
    Error,
>)
    requires
        i <= fields@.len(),
        old(enc).model().frames.len() > 0,
        old(enc).model().frames.last() == (FrameModel::InNamed { name: None }),
    ensures
        match r {
            Ok(()) => crate::wire::spec_enc_fields(
                crate::value::field_models(fields@).skip(i as int),
            ) matches Ok(b) && final(enc).model().frames == old(enc).model().frames
                && final(enc).model().out == old(enc).model().out + b,
            Err(e) => crate::wire::spec_enc_fields(
                crate::value::field_models(fields@).skip(i as int),
            ) == Err::<Seq<u8>, Error>(e),
        },
    decreases fields, fields@.len() - i,
{
    let ghost m0 = enc.model();
    let ghost fms = crate::value::field_models(fields@);
    proof {
        crate::value::lemma_field_models_index(fields@);
        assert(m0.frames =~= m0.frames.drop_last().push(FrameModel::InNamed { name: None }));
    }
    if i == fields.len() {
        assert(fms.skip(i as int) =~= Seq::<(Seq<u8>, ValueModel)>::empty());
        assert(m0.out + crate::wire::spec_enc_fields(fms.skip(i as int))->Ok_0 =~= m0.out);
        return Ok(());
    }
    let name = fields[i].0.clone();
    let ghost nb = utf8_bytes(name@);
    proof {
        assert(fms.skip(i as int)[0] == (utf8_bytes(fields@[i as int].0@), fields@[i as int].1@));
    }
    match enc.specify_name(name) {
        Err(e) => {
            assert(false);
            Err(e)
        },
        Ok(()) => {
            proof {
                assert(enc.model().frames == m0.frames.drop_last().push(
                    FrameModel::InNamed { name: Some(nb) },
                ));
                assert(enc.model().frames.last() == (FrameModel::InNamed { name: Some(nb) }));
            }
            let ghost m1 = enc.model();
            proof {
                lemma_at_named(m1, nb, fields@[i as int].1@);
            }
            match encode_value_onto(enc, &fields[i].1) {
                Err(e) => Err(e),
                Ok(()) => {
                    proof {
                        assert(m1.frames.drop_last() =~= m0.frames.drop_last());
                        assert(enc.model().frames =~= m0.frames);
                        assert(fms.skip(i as int).drop_first() =~= fms.skip(i + 1));
                        assert(crate::wire::spec_enc_fields(fms.skip(i as int).drop_first())
                            == crate::wire::spec_enc_fields(fms.skip(i + 1)));
                    }
                    let ghost b0 = crate::wire::spec_enc_field(nb, fields@[i as int].1@)->Ok_0;
                    match encode_fields_onto(enc, fields, i + 1) {
                        Err(e) => Err(e),
                        Ok(()) => {
                            proof {
                                assert(fms.skip(i as int).drop_first() =~= fms.skip(i + 1));
                                assert(crate::wire::spec_enc_fields(fms.skip(i as int).drop_first())
                                    == crate::wire::spec_enc_fields(fms.skip(i + 1)));
                                let brest = crate::wire::spec_enc_fields(fms.skip(i + 1))->Ok_0;
                                assert(enc.model().frames == m0.frames);
                                assert(enc.model().out =~= m0.out + (b0 + brest));
                                assert(crate::wire::spec_enc_fields(fms.skip(i as int)) matches Ok(
                                    b,
                                ) && b == b0 + brest);
                            }
                            Ok(())
                        },
                    }
                },
            }
        },
    }
}


/// At a record level with pending name `nb`, emitting a value is the field
/// encoding of that value.
proof fn lemma_at_named(m: EncModel, nb: Seq<u8>, mv: ValueModel)
    requires
        m.frames.len() > 0,
        m.frames.last() == (FrameModel::InNamed { name: Some(nb) }),
    ensures
        spec_encode_value_at(m, mv) == (match crate::wire::spec_enc_field(nb, mv) {
            Ok(b) => Ok::<EncModel, Error>(
                EncModel {
                    frames: m.frames.drop_last().push(FrameModel::InNamed { name: None }),
                    out: m.out + b,
                },
            ),
            Err(e) => Err::<EncModel, Error>(e),
        }),
{
    if mv.is_sequence() && crate::wire::seq_model_len(mv) > 0x7FFFFFFF {
        assert(crate::wire::spec_enc_sequence(nb, mv) == Err::<Seq<u8>, Error>(
            Error::UnrepresentableType("oversized list"),
        ));
    }
}

/// At a committed sequence level of kind `k`, emitting a value is the element
/// encoding of that value.
proof fn lemma_at_inlist(m: EncModel, k: Kind, mv: ValueModel)
    requires
        m.frames.len() > 0,
        m.frames.last() == (FrameModel::InList { kind: k }),
    ensures
        spec_encode_value_at(m, mv) == (match crate::wire::spec_enc_elem(k, mv) {
            Ok(b) => Ok::<EncModel, Error>(EncModel { frames: m.frames, out: m.out + b }),
            Err(e) => Err::<EncModel, Error>(e),
        }),
{
    if mv.is_sequence() && crate::wire::seq_model_len(mv) > 0x7FFFFFFF {
        assert(crate::wire::spec_enc_elem(k, mv) == Err::<Seq<u8>, Error>(
            Error::UnrepresentableType("oversized list"),
        ));
    }
}

/// Opening a record at the innermost level and encoding its fields, then
/// closing the level, is exactly what encoding a record value does.
proof fn lemma_compound(m0: EncModel, mv: ValueModel)
    requires
        mv matches ValueModel::Compound(_),
    ensures
        match spec_specify_kind(m0, Kind::Compound) {
            Err(e) => spec_encode_value_at(m0, mv) == Err::<EncModel, Error>(e),
            Ok(m1) => m1.frames.len() > 0 && m1.frames.last() == (FrameModel::InNamed {
                name: None,
            }) && match crate::wire::spec_enc_fields(mv->Compound_0) {
                Err(e) => spec_encode_value_at(m0, mv) == Err::<EncModel, Error>(e),
                Ok(fb) => spec_close_level(EncModel { frames: m1.frames, out: m1.out + fb })
                    == spec_encode_value_at(m0, mv),
            },
        },
{
    let fields = mv->Compound_0;
    if m0.frames.len() == 0 {
    } else {
        let rest = m0.frames.drop_last();
        match m0.frames.last() {
            FrameModel::InNamed { name: None } => {},
            FrameModel::InNamed { name: Some(nb) } => {
                if nb.len() <= 0xFFFF {
                    let m1 = spec_specify_kind(m0, Kind::Compound)->Ok_0;
                    assert((rest.push(FrameModel::InNamed { name: None }) + seq![
                        FrameModel::InNamed { name: None },
                    ]).last() == (FrameModel::InNamed { name: None }));
                    match crate::wire::spec_enc_fields(fields) {
                        Err(_) => {},
                        Ok(fb) => {
                            assert(m1.frames.drop_last() =~= rest.push(
                                FrameModel::InNamed { name: None },
                            ));
                            assert(m1.out + fb + seq![0u8] =~= m0.out + (seq![
                                id_byte(Kind::Compound),
                            ] + enc_str(nb) + (fb + seq![0u8])));
                        },
                    }
                }
            },
            FrameModel::InList { kind } => {
                if kind == Kind::Compound {
                    let m1 = spec_specify_kind(m0, Kind::Compound)->Ok_0;
                    assert((m0.frames + seq![FrameModel::InNamed { name: None }]).last()
                        == (FrameModel::InNamed { name: None }));
                    match crate::wire::spec_enc_fields(fields) {
                        Err(_) => {},
                        Ok(fb) => {
                            assert(m1.frames.drop_last() =~= m0.frames);
                            assert(m1.out + fb + seq![0u8] =~= m0.out + (fb + seq![0u8]));
                        },
                    }
                }
            },
            FrameModel::List { name: Some(nb), len } => {
                if nb.len() <= 0xFFFF {
                    let m1 = spec_specify_kind(m0, Kind::Compound)->Ok_0;
                    let committed = rest.push(FrameModel::InNamed { name: None }).push(
                        FrameModel::InList { kind: Kind::Compound },
                    );
                    assert((committed + seq![FrameModel::InNamed { name: None }]).last()
                        == (FrameModel::InNamed { name: None }));
                    match crate::wire::spec_enc_fields(fields) {
                        Err(_) => {},
                        Ok(fb) => {
                            assert(m1.frames.drop_last() =~= committed);
                            assert(m1.out + fb + seq![0u8] =~= m0.out
                                + (crate::wire::spec_commit_header(nb, len, Kind::Compound) + (fb
                                + seq![0u8])));
                        },
                    }
                }
            },
            FrameModel::List { name: None, .. } => {},
        }
    }
}

/// Opening a sequence level matches the sequence's encoding up to the commit,
/// and an empty sequence is finished by closing the still-pending level.
proof fn lemma_sequence_open(m0: EncModel, mv: ValueModel)
    requires
        mv.is_sequence(),
        crate::wire::seq_model_len(mv) <= 0x7FFFFFFF,
    ensures
        match spec_open_list(m0, crate::wire::seq_model_len(mv) as i32) {
            Err(e) => spec_encode_value_at(m0, mv) == Err::<EncModel, Error>(e),
            Ok(m1) => m1.out == m0.out && m1.frames.len() > 0 && (m1.frames.last() is List) && (
            crate::wire::seq_model_len(mv) == 0 ==> spec_close_level(m1) == spec_encode_value_at(
                m0,
                mv,
            )),
        },
{
    let n = crate::wire::seq_model_len(mv);
    let len32 = n as i32;
    if m0.frames.len() == 0 {
    } else {
        let rest = m0.frames.drop_last();
        match m0.frames.last() {
            FrameModel::InNamed { name: None } => {},
            FrameModel::InNamed { name: Some(nb) } => {
                let m1 = spec_open_list(m0, len32)->Ok_0;
                if n == 0 {
                    assert(m1.frames.last() == (FrameModel::List { name: Some(nb), len: len32 }));
                    if nb.len() <= 0xFFFF {
                        let m2 = spec_specify_kind(m1, Kind::End)->Ok_0;
                        assert(m1.frames.drop_last() =~= rest);
                        assert(m2.frames =~= rest.push(FrameModel::InNamed { name: None }).push(
                            FrameModel::InList { kind: Kind::End },
                        ));
                        assert(m2.frames.drop_last() =~= rest.push(
                            FrameModel::InNamed { name: None },
                        ));
                        assert(crate::wire::spec_commit_header(nb, len32, Kind::End) =~= seq![
                            id_byte(Kind::List),
                        ] + enc_str(nb) + seq![0u8] + crate::wire::i32_bytes(0));
                        assert(m0.out + crate::wire::spec_commit_header(nb, len32, Kind::End)
                            =~= m0.out + (seq![id_byte(Kind::List)] + enc_str(nb) + seq![0u8]
                            + crate::wire::i32_bytes(0)));
                    }
                }
            },
            FrameModel::InList { kind } => {
                if kind.spec_is_list() {
                    let m1 = spec_open_list(m0, len32)->Ok_0;
                    assert(m1.frames.last() == (FrameModel::List { name: None, len: len32 }));
                }
            },
            FrameModel::List { .. } => {
                let m1 = spec_open_list(m0, len32)->Ok_0;
                assert(m1.frames.last() == (FrameModel::List { name: None, len: len32 }));
            },
        }
    }
}

/// After a nonempty list level is opened, its first element's emission, the
/// remaining elements' payloads, and the close compose to the list's encoding.
proof fn lemma_list_chain(m0: EncModel, mv: ValueModel)
    requires
        mv matches ValueModel::List(_, elems) && elems.len() > 0,
        crate::wire::seq_model_len(mv) <= 0x7FFFFFFF,
    ensures
        match spec_open_list(m0, crate::wire::seq_model_len(mv) as i32) {
            Err(_) => true,
            Ok(m1) => match spec_encode_value_at(m1, mv->List_1[0]) {
                Err(e) => spec_encode_value_at(m0, mv) == Err::<EncModel, Error>(e),
                Ok(m2) => m2.frames.len() > 0 && m2.frames.last() == (FrameModel::InList {
                    kind: mv->List_1[0].kind_of(),
                }) && match crate::wire::spec_enc_elems(
                    mv->List_1[0].kind_of(),
                    mv->List_1.drop_first(),
                ) {
                    Err(e) => spec_encode_value_at(m0, mv) == Err::<EncModel, Error>(e),
                    Ok(br) => spec_close_level(EncModel { frames: m2.frames, out: m2.out + br })
                        == spec_encode_value_at(m0, mv),
                },
            },
        },
{
    let elems = mv->List_1;
    let first = elems[0];
    let ek = first.kind_of();
    let n = crate::wire::seq_model_len(mv);
    let len32 = n as i32;
    if m0.frames.len() == 0 {
    } else {
        let rest = m0.frames.drop_last();
        match m0.frames.last() {
            FrameModel::InNamed { name: None } => {},
            FrameModel::InNamed { name: Some(nb) } => {
                let m1 = spec_open_list(m0, len32)->Ok_0;
                assert(m1.frames.last() == (FrameModel::List { name: Some(nb), len: len32 }));
                assert(m1.frames.drop_last() =~= rest);
                match spec_encode_value_at(m1, first) {
                    Err(_) => {},
                    Ok(m2) => {
                        assert(!first.is_sequence());
                        assert(nb.len() <= 0xFFFF);
                        let p0 = crate::wire::spec_enc_payload(first)->Ok_0;
                        assert(m2.frames =~= rest.push(FrameModel::InNamed { name: None }).push(
                            FrameModel::InList { kind: ek },
                        ));
                        match crate::wire::spec_enc_elems(ek, elems.drop_first()) {
                            Err(_) => {},
                            Ok(br) => {
                                assert(crate::wire::spec_enc_elem(ek, first)
                                    == crate::wire::spec_enc_payload(first));
                                assert(m2.frames.drop_last() =~= rest.push(
                                    FrameModel::InNamed { name: None },
                                ));
                                assert(m2.out + br =~= m0.out + (crate::wire::spec_commit_header(
                                    nb,
                                    len32,
                                    ek,
                                ) + (p0 + br)));
                            },
                        }
                    },
                }
            },
            FrameModel::InList { kind } => {
                if kind.spec_is_list() {
                    let m1 = spec_open_list(m0, len32)->Ok_0;
                    assert(m1.frames.last() == (FrameModel::List { name: None, len: len32 }));
                }
            },
            FrameModel::List { .. } => {
                let m1 = spec_open_list(m0, len32)->Ok_0;
                assert(m1.frames.last() == (FrameModel::List { name: None, len: len32 }));
            },
        }
    }
}

/// The element kind a raw array commits: the kind of its scalar elements.
pub open spec fn array_elem_kind(mv: ValueModel) -> Kind {
    match mv {
        ValueModel::ByteArray(_) => Kind::I8,
        ValueModel::IntArray(_) => Kind::I32,
        ValueModel::LongArray(_) => Kind::I64,
        _ => Kind::End,
    }
}

/// The first element's bare payload of a raw array.
pub open spec fn array_first_payload(mv: ValueModel) -> Seq<u8> {
    match mv {
        ValueModel::ByteArray(xs) => seq![spec_u8_of_i8(xs[0])],
        ValueModel::IntArray(xs) => crate::bytes::u32_be(spec_u32_of_i32(xs[0])),
        ValueModel::LongArray(xs) => crate::bytes::u64_be(spec_u64_of_i64(xs[0])),
        _ => Seq::empty(),
    }
}

/// The remaining elements' bare payloads of a raw array.
pub open spec fn array_rest_payloads(mv: ValueModel) -> Seq<u8> {
    match mv {
        ValueModel::ByteArray(xs) => crate::wire::enc_i8s(xs.drop_first()),
        ValueModel::IntArray(xs) => crate::wire::enc_i32s(xs.drop_first()),
        ValueModel::LongArray(xs) => crate::wire::enc_i64s(xs.drop_first()),
        _ => Seq::empty(),
    }
}

/// After a nonempty raw-array level is opened, emitting its first element,
/// appending the remaining payloads, and closing compose to its encoding.
proof fn lemma_array_chain(m0: EncModel, mv: ValueModel)
    requires
        match mv {
            ValueModel::ByteArray(xs) => xs.len() > 0,
            ValueModel::IntArray(xs) => xs.len() > 0,
            ValueModel::LongArray(xs) => xs.len() > 0,
            _ => false,
        },
        crate::wire::seq_model_len(mv) <= 0x7FFFFFFF,
    ensures
        match spec_open_list(m0, crate::wire::seq_model_len(mv) as i32) {
            Err(_) => true,
            Ok(m1) => match spec_emit(m1, array_elem_kind(mv), array_first_payload(mv)) {
                Err(e) => spec_encode_value_at(m0, mv) == Err::<EncModel, Error>(e),
                Ok(m2) => m2.frames.len() > 0 && m2.frames.last() == (FrameModel::InList {
                    kind: array_elem_kind(mv),
                }) && spec_close_level(
                    EncModel { frames: m2.frames, out: m2.out + array_rest_payloads(mv) },
                ) == spec_encode_value_at(m0, mv),
            },
        },
{
    let tag = array_elem_kind(mv);
    let n = crate::wire::seq_model_len(mv);
    let len32 = n as i32;
    if m0.frames.len() == 0 {
    } else {
        let rest = m0.frames.drop_last();
        match m0.frames.last() {
            FrameModel::InNamed { name: None } => {},
            FrameModel::InNamed { name: Some(nb) } => {
                let m1 = spec_open_list(m0, len32)->Ok_0;
                assert(m1.frames.last() == (FrameModel::List { name: Some(nb), len: len32 }));
                assert(m1.frames.drop_last() =~= rest);
                if nb.len() <= 0xFFFF {
                    let m2 = spec_emit(m1, tag, array_first_payload(mv))->Ok_0;
                    assert(m2.frames =~= rest.push(FrameModel::InNamed { name: None }).push(
                        FrameModel::InList { kind: tag },
                    ));
                    assert(m2.frames.drop_last() =~= rest.push(
                        FrameModel::InNamed { name: None },
                    ));
                    assert(m2.out + array_rest_payloads(mv) =~= m0.out + (
                    crate::wire::spec_commit_header(nb, len32, tag) + (array_first_payload(mv)
                        + array_rest_payloads(mv))));
                    match mv {
                        ValueModel::ByteArray(xs) => {
                            assert(crate::wire::enc_i8s(xs) == array_first_payload(mv)
                                + array_rest_payloads(mv));
                        },
                        ValueModel::IntArray(xs) => {
                            assert(crate::wire::enc_i32s(xs) == array_first_payload(mv)
                                + array_rest_payloads(mv));
                        },
                        ValueModel::LongArray(xs) => {
                            assert(crate::wire::enc_i64s(xs) == array_first_payload(mv)
                                + array_rest_payloads(mv));
                        },
                        _ => {},
                    }
                }
            },
            FrameModel::InList { kind } => {
                if kind.spec_is_list() {
                    let m1 = spec_open_list(m0, len32)->Ok_0;
                    assert(m1.frames.last() == (FrameModel::List { name: None, len: len32 }));
                }
            },
            FrameModel::List { .. } => {
                let m1 = spec_open_list(m0, len32)->Ok_0;
                assert(m1.frames.last() == (FrameModel::List { name: None, len: len32 }));
            },
        }
    }
}

/// Emit one whole value at the innermost level; see `spec_encode_value_at`
/// for the exact transition.
#[verifier::rlimit(100)]
fn encode_value_onto(enc: &mut Encoder, v: &Value) -> (r: Result<(), Error>)
    ensures
        match r {
            Ok(()) => spec_encode_value_at(old(enc).model(), v@) == Ok::<EncModel, Error>(
                final(enc).model(),
            ),
            Err(e) => spec_encode_value_at(old(enc).model(), v@) == Err::<EncModel, Error>(e),
        },
    decreases v, 0int,
{
    let ghost m0 = enc.model();
    match v {
        Value::Byte(b) => {
            let r = enc.emit_i8(*b);
            proof {
                lemma_emit_matches(m0, v@, seq![spec_u8_of_i8(*b)]);
            }
            r
        },
        Value::Short(x) => {
            let r = enc.emit_i16(*x);
            proof {
                lemma_emit_matches(m0, v@, crate::bytes::u16_be(spec_u16_of_i16(*x)));
            }
            r
        },
        Value::Int(x) => {
            let r = enc.emit_i32(*x);
            proof {
                lemma_emit_matches(m0, v@, crate::bytes::u32_be(spec_u32_of_i32(*x)));
            }
            r
        },
        Value::Long(x) => {
            let r = enc.emit_i64(*x);
            proof {
                lemma_emit_matches(m0, v@, crate::bytes::u64_be(spec_u64_of_i64(*x)));
            }
            r
        },
        Value::Float(bits) => {
            let r = enc.emit_float_bits(*bits);
            proof {
                lemma_emit_matches(m0, v@, crate::bytes::u32_be(*bits));
            }
            r
        },
        Value::Double(bits) => {
            let r = enc.emit_double_bits(*bits);
            proof {
                lemma_emit_matches(m0, v@, crate::bytes::u64_be(*bits));
            }
            r
        },
        Value::String(sv) => {
            let r = enc.emit_str(sv);
            proof {
                lemma_emit_str_matches(m0, utf8_bytes(sv@));
            }
            r
        },
        Value::Compound(fields) => {
            proof {
                lemma_compound(m0, v@);
            }
            match enc.specify_kind(Kind::Compound) {
                Err(e) => Err(e),
                Ok(()) => {
                    let ghost m1 = enc.model();
                    proof {
                        assert(crate::value::field_models(fields@).skip(0)
                            =~= crate::value::field_models(fields@));
                    }
                    match encode_fields_onto(enc, fields, 0) {
                        Err(e) => Err(e),
                        Ok(()) => enc.close_level(),
                    }
                },
            }
        },
        Value::List(_k, elems) => {
            let n = elems.len();
            proof {
                crate::value::lemma_value_models_index(elems@);
            }
            if n > 0x7FFFFFFF {
                return Err(Error::UnrepresentableType("oversized list"));
            }
            proof {
                lemma_sequence_open(m0, v@);
            }
            match enc.open_list(n as i32) {
                Err(e) => Err(e),
                Ok(()) => {
                    let ghost m1 = enc.model();
                    if n == 0 {
                        enc.close_level()
                    } else {
                        proof {
                            lemma_list_chain(m0, v@);
                            assert(v@->List_1[0] == elems@[0]@);
                        }
                        match encode_value_onto(enc, &elems[0]) {
                            Err(e) => Err(e),
                            Ok(()) => {
                                let ghost m2 = enc.model();
                                let ghost ek = elems@[0]@.kind_of();
                                proof {
                                    assert(crate::value::value_models(elems@).skip(1)
                                        =~= v@->List_1.drop_first());
                                }
                                match encode_elems_onto(enc, elems, 1, Ghost(ek)) {
                                    Err(e) => Err(e),
                                    Ok(()) => enc.close_level(),
                                }
                            },
                        }
                    }
                },
            }
        },
        Value::ByteArray(xs) => {
            let n = xs.len();
            if n > 0x7FFFFFFF {
                return Err(Error::UnrepresentableType("oversized list"));
            }
            proof {
                lemma_sequence_open(m0, v@);
            }
            match enc.open_list(n as i32) {
                Err(e) => Err(e),
                Ok(()) => {
                    if n == 0 {
                        enc.close_level()
                    } else {
                        proof {
                            lemma_array_chain(m0, v@);
                        }
                        match enc.emit_i8(xs[0]) {
                            Err(e) => Err(e),
                            Ok(()) => {
                                encode_i8s_onto(enc, xs, 1);
                                enc.close_level()
                            },
                        }
                    }
                },
            }
        },
        Value::IntArray(xs) => {
            let n = xs.len();
            if n > 0x7FFFFFFF {
                return Err(Error::UnrepresentableType("oversized list"));
            }
            proof {
                lemma_sequence_open(m0, v@);
            }
            match enc.open_list(n as i32) {
                Err(e) => Err(e),
                Ok(()) => {
                    if n == 0 {
                        enc.close_level()
                    } else {
                        proof {
                            lemma_array_chain(m0, v@);
                        }
                        match enc.emit_i32(xs[0]) {
                            Err(e) => Err(e),
                            Ok(()) => {
                                encode_i32s_onto(enc, xs, 1);
                                enc.close_level()
                            },
                        }
                    }
                },
            }
        },
        Value::LongArray(xs) => {
            let n = xs.len();
            if n > 0x7FFFFFFF {
                return Err(Error::UnrepresentableType("oversized list"));
            }
            proof {
                lemma_sequence_open(m0, v@);
            }
            match enc.open_list(n as i32) {
                Err(e) => Err(e),
                Ok(()) => {
                    if n == 0 {
                        enc.close_level()
                    } else {
                        proof {
                            lemma_array_chain(m0, v@);
                        }
                        match enc.emit_i64(xs[0]) {
                            Err(e) => Err(e),
                            Ok(()) => {
                                encode_i64s_onto(enc, xs, 1);
                                enc.close_level()
                            },
                        }
                    }
                },
            }
        },
    }
}

/// Encode a value as a whole stream, with an optional root name. Only a
/// record can stand at the root; its header is written first, then its
/// fields, then the terminator.
pub fn encode(value: &Value, header: Option<String>) -> (r: Result<Vec<u8>, Error>)
    ensures
        match r {
            Ok(b) => crate::wire::spec_encode_root(Encoder::spec_header_bytes(header), value@)
                == Ok::<Seq<u8>, Error>(b@) && valid_str(Encoder::spec_header_bytes(header)),
            Err(e) => crate::wire::spec_encode_root(Encoder::spec_header_bytes(header), value@)
                == Err::<Seq<u8>, Error>(e),
        },
{
    let ghost nb = Encoder::spec_header_bytes(header);
    let mut enc = Encoder::new(header);
    let ghost m0 = enc.model();
    match value {
        Value::Compound(fields) => {
            proof {
                lemma_compound(m0, value@);
            }
            match enc.specify_kind(Kind::Compound) {
                Err(e) => Err(e),
                Ok(()) => {
                    proof {
                        assert(crate::value::field_models(fields@).skip(0)
                            =~= crate::value::field_models(fields@));
                    }
                    match encode_fields_onto(&mut enc, fields, 0) {
                        Err(e) => Err(e),
                        Ok(()) => {
                            match enc.close_level() {
                                Err(e) => Err(e),
                                Ok(()) => {
                                    proof {
                                        lemma_root_assembly(m0, nb, value@);
                                    }
                                    Ok(enc.into_inner())
                                },
                            }
                        },
                    }
                },
            }
        },
        _ => Err(Error::NoRootCompound),
    }
}

/// From the machine's starting state, encoding the root record and closing it
/// produces the whole stream's encoding.
proof fn lemma_root_assembly(m0: EncModel, nb: Seq<u8>, mv: ValueModel)
    requires
        mv matches ValueModel::Compound(_),
        m0.frames =~= seq![FrameModel::InNamed { name: Some(nb) }],
        m0.out == Seq::<u8>::empty(),
    ensures
        spec_encode_value_at(m0, mv) == (match crate::wire::spec_encode_root(nb, mv) {
            Ok(b) => Ok::<EncModel, Error>(
                EncModel { frames: seq![FrameModel::InNamed { name: None }], out: b },
            ),
            Err(e) => Err::<EncModel, Error>(e),
        }),
{
    let fields = mv->Compound_0;
    assert(m0.frames.last() == (FrameModel::InNamed { name: Some(nb) }));
    if nb.len() <= 0xFFFF {
        match crate::wire::spec_enc_fields(fields) {
            Err(_) => {},
            Ok(fb) => {
                let b = crate::wire::spec_encode_root(nb, mv)->Ok_0;
                assert(m0.frames.drop_last().push(FrameModel::InNamed { name: None }) =~= seq![
                    FrameModel::InNamed { name: None },
                ]);
                assert(m0.out + (seq![id_byte(Kind::Compound)] + enc_str(nb) + (fb + seq![0u8]))
                    =~= seq![id_byte(Kind::Compound)] + enc_str(nb) + fb + seq![0u8]);
            },
        }
    }
}

} // verus!
