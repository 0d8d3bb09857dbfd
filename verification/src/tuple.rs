//! Tuples: the components, one after the other.
//!
//! A tuple has the error type of its first component, into which the errors of the other
//! components are turned, and the visitor type of its first component, from which the
//! visitors of the other components are had.

use vstd::prelude::*;

use crate::error::{CoerceInto, ErrorView, UnpackError};
use crate::packable::{Decoded, Packable};
use crate::packer::{lemma_accepted_twice, Packer};
use crate::unpacker::Unpacker;
use crate::visitor::Narrow;

verus! {

/// A tuple of one component: packed as the component.
impl<A: Packable> Packable for (A,) {
    type UnpackError = A::UnpackError;

    type UnpackVisitor = A::UnpackVisitor;

    open spec fn valid(&self) -> bool {
        self.0.valid()
    }

    open spec fn passes(&self, visitor: &A::UnpackVisitor) -> bool {
        self.0.passes(visitor)
    }

    open spec fn spec_pack(&self) -> Seq<u8> {
        self.0.spec_pack()
    }

    open spec fn spec_unpack(bytes: Seq<u8>, visitor: &A::UnpackVisitor, verify: bool) -> Decoded<
        (A::V,),
        <A::UnpackError as ErrorView>::View,
    > {
        match A::spec_unpack(bytes, visitor, verify) {
            Decoded::Done(first, n) => Decoded::Done((first,), n),
            Decoded::Invalid(e) => Decoded::Invalid(e),
            Decoded::Short(required, had) => Decoded::Short(required, had),
        }
    }

    proof fn lemma_round_trip(&self, rest: Seq<u8>, visitor: &A::UnpackVisitor, verify: bool) {
        self.0.lemma_round_trip(rest, visitor, verify);
    }

    proof fn lemma_truncated(&self, len: nat, visitor: &A::UnpackVisitor, verify: bool) {
        self.0.lemma_truncated(len, visitor, verify);
    }

    proof fn lemma_invalid_can_occur(bytes: Seq<u8>, visitor: &A::UnpackVisitor, verify: bool) {
        A::lemma_invalid_can_occur(bytes, visitor, verify);
    }

    fn pack<P: Packer>(&self, packer: &mut P) -> (r: Result<(), P::Error>) {
        self.0.pack(packer)
    }

    fn unpack<U: Unpacker, const VERIFY: bool>(
        unpacker: &mut U,
        visitor: &A::UnpackVisitor,
    ) -> (r: Result<Self, UnpackError<Self::UnpackError, U::Error>>) {
        match A::unpack::<U, VERIFY>(unpacker, visitor) {
            Ok(first) => Ok((first,)),
            Err(e) => Err(e),
        }
    }
}

/// The encoding of a tuple of two components is the encodings of the components, one
/// after the other.
pub proof fn lemma_parts_2<
    A: Packable, B: Packable,
>(parts: &(A, B)) where
    B::UnpackError: CoerceInto<A::UnpackError>,
    A::UnpackVisitor: Narrow<B::UnpackVisitor>,
    ensures
        parts.spec_pack() == parts.0.spec_pack() + parts.1.spec_pack(),
{
}

/// A tuple of two components: the components, packed one after the other.
impl<
    A: Packable, B: Packable,
> Packable for (A, B) where
    B::UnpackError: CoerceInto<A::UnpackError>,
    A::UnpackVisitor: Narrow<B::UnpackVisitor>, {
    type UnpackError = A::UnpackError;

    type UnpackVisitor = A::UnpackVisitor;

    open spec fn valid(&self) -> bool {
        let init = (self.0,);
        init.valid() && self.1.valid()
    }

    open spec fn passes(&self, visitor: &A::UnpackVisitor) -> bool {
        let init = (self.0,);
        init.passes(visitor) && self.1.passes(
            Narrow::<B::UnpackVisitor>::spec_narrow(visitor),
        )
    }

    open spec fn spec_pack(&self) -> Seq<u8> {
        let init = (self.0,);
        init.spec_pack() + self.1.spec_pack()
    }

    open spec fn spec_unpack(bytes: Seq<u8>, visitor: &A::UnpackVisitor, verify: bool) -> Decoded<
        (A::V, B::V),
        <A::UnpackError as ErrorView>::View,
    > {
        match <(A,)>::spec_unpack(bytes, visitor, verify) {
            Decoded::Done(init, n) => match B::spec_unpack(
                bytes.skip(n as int),
                Narrow::<B::UnpackVisitor>::spec_narrow(visitor),
                verify,
            ) {
                Decoded::Done(last, m) => Decoded::Done(
                    (init.0, last),
                    n + m,
                ),
                Decoded::Invalid(e) => Decoded::Invalid(
                    <B::UnpackError as CoerceInto<A::UnpackError>>::spec_coerce(e),
                ),
                Decoded::Short(required, had) => Decoded::Short(required, had),
            },
            Decoded::Invalid(e) => Decoded::Invalid(e),
            Decoded::Short(required, had) => Decoded::Short(required, had),
        }
    }

    proof fn lemma_round_trip(&self, rest: Seq<u8>, visitor: &A::UnpackVisitor, verify: bool) {
        let init = (self.0,);
        let last = self.1;
        let bytes = self.spec_pack() + rest;
        assert(bytes =~= init.spec_pack() + (last.spec_pack() + rest));
        init.lemma_round_trip(last.spec_pack() + rest, visitor, verify);
        assert(bytes.skip(init.spec_pack().len() as int) =~= last.spec_pack() + rest);
        last.lemma_round_trip(rest, Narrow::<B::UnpackVisitor>::spec_narrow(visitor), verify);
    }

    proof fn lemma_truncated(&self, len: nat, visitor: &A::UnpackVisitor, verify: bool) {
        let init = (self.0,);
        let last = self.1;
        let head = init.spec_pack();
        let cut = self.spec_pack().take(len as int);
        if len < head.len() {
            assert(cut =~= head.take(len as int));
            init.lemma_truncated(len, visitor, verify);
        } else {
            let left = (len - head.len()) as nat;
            assert(cut =~= head + last.spec_pack().take(left as int));
            init.lemma_round_trip(last.spec_pack().take(left as int), visitor, verify);
            assert(cut.skip(head.len() as int) =~= last.spec_pack().take(left as int));
            last.lemma_truncated(left, Narrow::<B::UnpackVisitor>::spec_narrow(visitor), verify);
        }
    }

    proof fn lemma_invalid_can_occur(bytes: Seq<u8>, visitor: &A::UnpackVisitor, verify: bool) {
        <(A,)>::lemma_invalid_can_occur(bytes, visitor, verify);
        let start = <(A,)>::spec_unpack(bytes, visitor, verify);
        if let Decoded::Done(init, n) = start {
            B::lemma_invalid_can_occur(
                bytes.skip(n as int),
                Narrow::<B::UnpackVisitor>::spec_narrow(visitor),
                verify,
            );
            <B::UnpackError as CoerceInto<A::UnpackError>>::lemma_coerce_can_occur();
        }
    }

    fn pack<P: Packer>(&self, packer: &mut P) -> (r: Result<(), P::Error>) {
        proof {
            lemma_parts_2(self);
        }
        let ghost before = *packer;
        self.0.pack(packer)?;
        let ghost done = self.0.spec_pack();
        let ghost between = *packer;
        let r = self.1.pack(packer);
        proof {
            if r is Ok {
                lemma_accepted_twice(&before, &between, packer, done, self.1.spec_pack());
            } else {
                assert forall|n: nat| n >= self.spec_pack().len() implies !(
                #[trigger] before.has_room(n)) by {
                    if before.has_room(n) {
                        assert(between.has_room((n - done.len()) as nat));
                    }
                }
            }
        }
        r
    }

    fn unpack<U: Unpacker, const VERIFY: bool>(
        unpacker: &mut U,
        visitor: &A::UnpackVisitor,
    ) -> (r: Result<Self, UnpackError<Self::UnpackError, U::Error>>) {
        let ghost bytes = unpacker.remaining();
        let ghost start = <(A,)>::spec_unpack(bytes, visitor, VERIFY);
        let first = <(A,)>::unpack::<U, VERIFY>(unpacker, visitor);
        let init = match first {
            Ok(init) => init,
            Err(e) => {
                return Err(e);
            },
        };
        let ghost n = start->Done_1;
        let part = Narrow::<B::UnpackVisitor>::narrow(visitor);
        proof {
            B::lemma_invalid_can_occur(bytes.skip(n as int), part, VERIFY);
        }
        match B::unpack::<U, VERIFY>(unpacker, part) {
            Ok(last) => {
                proof {
                    let m = B::spec_unpack(bytes.skip(n as int), part, VERIFY)->Done_1;
                    assert(bytes.skip(n as int).skip(m as int) =~= bytes.skip(n as int + m));
                }
                Ok((init.0, last))
            },
            Err(UnpackError::Packable(e)) => Err(UnpackError::Packable(e.coerce_into())),
            Err(UnpackError::Unpacker(e)) => Err(UnpackError::Unpacker(e)),
        }
    }
}

/// The encoding of a tuple of three components is the encodings of the components, one
/// after the other.
pub proof fn lemma_parts_3<
    A: Packable, B: Packable, C: Packable,
>(parts: &(A, B, C)) where
    B::UnpackError: CoerceInto<A::UnpackError>,
    A::UnpackVisitor: Narrow<B::UnpackVisitor>,
    C::UnpackError: CoerceInto<A::UnpackError>,
    A::UnpackVisitor: Narrow<C::UnpackVisitor>,
    ensures
        parts.spec_pack() == parts.0.spec_pack() + parts.1.spec_pack() + parts.2.spec_pack(),
{
    let init = (parts.0, parts.1);
    lemma_parts_2(&init);
}

/// A tuple of three components: the components, packed one after the other.
impl<
    A: Packable, B: Packable, C: Packable,
> Packable for (A, B, C) where
    B::UnpackError: CoerceInto<A::UnpackError>,
    A::UnpackVisitor: Narrow<B::UnpackVisitor>,
    C::UnpackError: CoerceInto<A::UnpackError>,
    A::UnpackVisitor: Narrow<C::UnpackVisitor>, {
    type UnpackError = A::UnpackError;

    type UnpackVisitor = A::UnpackVisitor;

    open spec fn valid(&self) -> bool {
        let init = (self.0, self.1);
        init.valid() && self.2.valid()
    }

    open spec fn passes(&self, visitor: &A::UnpackVisitor) -> bool {
        let init = (self.0, self.1);
        init.passes(visitor) && self.2.passes(
            Narrow::<C::UnpackVisitor>::spec_narrow(visitor),
        )
    }

    open spec fn spec_pack(&self) -> Seq<u8> {
        let init = (self.0, self.1);
        init.spec_pack() + self.2.spec_pack()
    }

    open spec fn spec_unpack(bytes: Seq<u8>, visitor: &A::UnpackVisitor, verify: bool) -> Decoded<
        (A::V, B::V, C::V),
        <A::UnpackError as ErrorView>::View,
    > {
        match <(A, B)>::spec_unpack(bytes, visitor, verify) {
            Decoded::Done(init, n) => match C::spec_unpack(
                bytes.skip(n as int),
                Narrow::<C::UnpackVisitor>::spec_narrow(visitor),
                verify,
            ) {
                Decoded::Done(last, m) => Decoded::Done(
                    (init.0, init.1, last),
                    n + m,
                ),
                Decoded::Invalid(e) => Decoded::Invalid(
                    <C::UnpackError as CoerceInto<A::UnpackError>>::spec_coerce(e),
                ),
                Decoded::Short(required, had) => Decoded::Short(required, had),
            },
            Decoded::Invalid(e) => Decoded::Invalid(e),
            Decoded::Short(required, had) => Decoded::Short(required, had),
        }
    }

    proof fn lemma_round_trip(&self, rest: Seq<u8>, visitor: &A::UnpackVisitor, verify: bool) {
        let init = (self.0, self.1);
        let last = self.2;
        let bytes = self.spec_pack() + rest;
        assert(bytes =~= init.spec_pack() + (last.spec_pack() + rest));
        init.lemma_round_trip(last.spec_pack() + rest, visitor, verify);
        assert(bytes.skip(init.spec_pack().len() as int) =~= last.spec_pack() + rest);
        last.lemma_round_trip(rest, Narrow::<C::UnpackVisitor>::spec_narrow(visitor), verify);
    }

    proof fn lemma_truncated(&self, len: nat, visitor: &A::UnpackVisitor, verify: bool) {
        let init = (self.0, self.1);
        let last = self.2;
        let head = init.spec_pack();
        let cut = self.spec_pack().take(len as int);
        if len < head.len() {
            assert(cut =~= head.take(len as int));
            init.lemma_truncated(len, visitor, verify);
        } else {
            let left = (len - head.len()) as nat;
            assert(cut =~= head + last.spec_pack().take(left as int));
            init.lemma_round_trip(last.spec_pack().take(left as int), visitor, verify);
            assert(cut.skip(head.len() as int) =~= last.spec_pack().take(left as int));
            last.lemma_truncated(left, Narrow::<C::UnpackVisitor>::spec_narrow(visitor), verify);
        }
    }

    proof fn lemma_invalid_can_occur(bytes: Seq<u8>, visitor: &A::UnpackVisitor, verify: bool) {
        <(A, B)>::lemma_invalid_can_occur(bytes, visitor, verify);
        let start = <(A, B)>::spec_unpack(bytes, visitor, verify);
        if let Decoded::Done(init, n) = start {
            C::lemma_invalid_can_occur(
                bytes.skip(n as int),
                Narrow::<C::UnpackVisitor>::spec_narrow(visitor),
                verify,
            );
            <C::UnpackError as CoerceInto<A::UnpackError>>::lemma_coerce_can_occur();
        }
    }

    fn pack<P: Packer>(&self, packer: &mut P) -> (r: Result<(), P::Error>) {
        proof {
            lemma_parts_3(self);
        }
        let ghost before = *packer;
        self.0.pack(packer)?;
        let ghost done = self.0.spec_pack();
        let ghost between = *packer;
        let r = self.1.pack(packer);
        proof {
            if r is Ok {
                lemma_accepted_twice(&before, &between, packer, done, self.1.spec_pack());
            } else {
                assert forall|n: nat| n >= self.spec_pack().len() implies !(
                #[trigger] before.has_room(n)) by {
                    if before.has_room(n) {
                        assert(between.has_room((n - done.len()) as nat));
                    }
                }
            }
        }
        match r {
            Ok(()) => {},
            Err(e) => {
                return Err(e);
            },
        }
        let ghost done = done + self.1.spec_pack();
        let ghost between = *packer;
        let r = self.2.pack(packer);
        proof {
            if r is Ok {
                lemma_accepted_twice(&before, &between, packer, done, self.2.spec_pack());
            } else {
                assert forall|n: nat| n >= self.spec_pack().len() implies !(
                #[trigger] before.has_room(n)) by {
                    if before.has_room(n) {
                        assert(between.has_room((n - done.len()) as nat));
                    }
                }
            }
        }
        r
    }

    fn unpack<U: Unpacker, const VERIFY: bool>(
        unpacker: &mut U,
        visitor: &A::UnpackVisitor,
    ) -> (r: Result<Self, UnpackError<Self::UnpackError, U::Error>>) {
        let ghost bytes = unpacker.remaining();
        let ghost start = <(A, B)>::spec_unpack(bytes, visitor, VERIFY);
        let first = <(A, B)>::unpack::<U, VERIFY>(unpacker, visitor);
        let init = match first {
            Ok(init) => init,
            Err(e) => {
                return Err(e);
            },
        };
        let ghost n = start->Done_1;
        let part = Narrow::<C::UnpackVisitor>::narrow(visitor);
        proof {
            C::lemma_invalid_can_occur(bytes.skip(n as int), part, VERIFY);
        }
        match C::unpack::<U, VERIFY>(unpacker, part) {
            Ok(last) => {
                proof {
                    let m = C::spec_unpack(bytes.skip(n as int), part, VERIFY)->Done_1;
                    assert(bytes.skip(n as int).skip(m as int) =~= bytes.skip(n as int + m));
                }
                Ok((init.0, init.1, last))
            },
            Err(UnpackError::Packable(e)) => Err(UnpackError::Packable(e.coerce_into())),
            Err(UnpackError::Unpacker(e)) => Err(UnpackError::Unpacker(e)),
        }
    }
}

/// The encoding of a tuple of four components is the encodings of the components, one
/// after the other.
pub proof fn lemma_parts_4<
    A: Packable, B: Packable, C: Packable, D: Packable,
>(parts: &(A, B, C, D)) where
    B::UnpackError: CoerceInto<A::UnpackError>,
    A::UnpackVisitor: Narrow<B::UnpackVisitor>,
    C::UnpackError: CoerceInto<A::UnpackError>,
    A::UnpackVisitor: Narrow<C::UnpackVisitor>,
    D::UnpackError: CoerceInto<A::UnpackError>,
    A::UnpackVisitor: Narrow<D::UnpackVisitor>,
    ensures
        parts.spec_pack() == parts.0.spec_pack() + parts.1.spec_pack() + parts.2.spec_pack()
            + parts.3.spec_pack(),
{
    let init = (parts.0, parts.1, parts.2);
    lemma_parts_3(&init);
}

/// A tuple of four components: the components, packed one after the other.
impl<
    A: Packable, B: Packable, C: Packable, D: Packable,
> Packable for (A, B, C, D) where
    B::UnpackError: CoerceInto<A::UnpackError>,
    A::UnpackVisitor: Narrow<B::UnpackVisitor>,
    C::UnpackError: CoerceInto<A::UnpackError>,
    A::UnpackVisitor: Narrow<C::UnpackVisitor>,
    D::UnpackError: CoerceInto<A::UnpackError>,
    A::UnpackVisitor: Narrow<D::UnpackVisitor>, {
    type UnpackError = A::UnpackError;

    type UnpackVisitor = A::UnpackVisitor;

    open spec fn valid(&self) -> bool {
        let init = (self.0, self.1, self.2);
        init.valid() && self.3.valid()
    }

    open spec fn passes(&self, visitor: &A::UnpackVisitor) -> bool {
        let init = (self.0, self.1, self.2);
        init.passes(visitor) && self.3.passes(
            Narrow::<D::UnpackVisitor>::spec_narrow(visitor),
        )
    }

    open spec fn spec_pack(&self) -> Seq<u8> {
        let init = (self.0, self.1, self.2);
        init.spec_pack() + self.3.spec_pack()
    }

    open spec fn spec_unpack(bytes: Seq<u8>, visitor: &A::UnpackVisitor, verify: bool) -> Decoded<
        (A::V, B::V, C::V, D::V),
        <A::UnpackError as ErrorView>::View,
    > {
        match <(A, B, C)>::spec_unpack(bytes, visitor, verify) {
            Decoded::Done(init, n) => match D::spec_unpack(
                bytes.skip(n as int),
                Narrow::<D::UnpackVisitor>::spec_narrow(visitor),
                verify,
            ) {
                Decoded::Done(last, m) => Decoded::Done(
                    (init.0, init.1, init.2, last),
                    n + m,
                ),
                Decoded::Invalid(e) => Decoded::Invalid(
                    <D::UnpackError as CoerceInto<A::UnpackError>>::spec_coerce(e),
                ),
                Decoded::Short(required, had) => Decoded::Short(required, had),
            },
            Decoded::Invalid(e) => Decoded::Invalid(e),
            Decoded::Short(required, had) => Decoded::Short(required, had),
        }
    }

    proof fn lemma_round_trip(&self, rest: Seq<u8>, visitor: &A::UnpackVisitor, verify: bool) {
        let init = (self.0, self.1, self.2);
        let last = self.3;
        let bytes = self.spec_pack() + rest;
        assert(bytes =~= init.spec_pack() + (last.spec_pack() + rest));
        init.lemma_round_trip(last.spec_pack() + rest, visitor, verify);
        assert(bytes.skip(init.spec_pack().len() as int) =~= last.spec_pack() + rest);
        last.lemma_round_trip(rest, Narrow::<D::UnpackVisitor>::spec_narrow(visitor), verify);
    }

    proof fn lemma_truncated(&self, len: nat, visitor: &A::UnpackVisitor, verify: bool) {
        let init = (self.0, self.1, self.2);
        let last = self.3;
        let head = init.spec_pack();
        let cut = self.spec_pack().take(len as int);
        if len < head.len() {
            assert(cut =~= head.take(len as int));
            init.lemma_truncated(len, visitor, verify);
        } else {
            let left = (len - head.len()) as nat;
            assert(cut =~= head + last.spec_pack().take(left as int));
            init.lemma_round_trip(last.spec_pack().take(left as int), visitor, verify);
            assert(cut.skip(head.len() as int) =~= last.spec_pack().take(left as int));
            last.lemma_truncated(left, Narrow::<D::UnpackVisitor>::spec_narrow(visitor), verify);
        }
    }

    proof fn lemma_invalid_can_occur(bytes: Seq<u8>, visitor: &A::UnpackVisitor, verify: bool) {
        <(A, B, C)>::lemma_invalid_can_occur(bytes, visitor, verify);
        let start = <(A, B, C)>::spec_unpack(bytes, visitor, verify);
        if let Decoded::Done(init, n) = start {
            D::lemma_invalid_can_occur(
                bytes.skip(n as int),
                Narrow::<D::UnpackVisitor>::spec_narrow(visitor),
                verify,
            );
            <D::UnpackError as CoerceInto<A::UnpackError>>::lemma_coerce_can_occur();
        }
    }

    fn pack<P: Packer>(&self, packer: &mut P) -> (r: Result<(), P::Error>) {
        proof {
            lemma_parts_4(self);
        }
        let ghost before = *packer;
        self.0.pack(packer)?;
        let ghost done = self.0.spec_pack();
        let ghost between = *packer;
        let r = self.1.pack(packer);
        proof {
            if r is Ok {
                lemma_accepted_twice(&before, &between, packer, done, self.1.spec_pack());
            } else {
                assert forall|n: nat| n >= self.spec_pack().len() implies !(
                #[trigger] before.has_room(n)) by {
                    if before.has_room(n) {
                        assert(between.has_room((n - done.len()) as nat));
                    }
                }
            }
        }
        match r {
            Ok(()) => {},
            Err(e) => {
                return Err(e);
            },
        }
        let ghost done = done + self.1.spec_pack();
        let ghost between = *packer;
        let r = self.2.pack(packer);
        proof {
            if r is Ok {
                lemma_accepted_twice(&before, &between, packer, done, self.2.spec_pack());
            } else {
                assert forall|n: nat| n >= self.spec_pack().len() implies !(
                #[trigger] before.has_room(n)) by {
                    if before.has_room(n) {
                        assert(between.has_room((n - done.len()) as nat));
                    }
                }
            }
        }
        match r {
            Ok(()) => {},
            Err(e) => {
                return Err(e);
            },
        }
        let ghost done = done + self.2.spec_pack();
        let ghost between = *packer;
        let r = self.3.pack(packer);
        proof {
            if r is Ok {
                lemma_accepted_twice(&before, &between, packer, done, self.3.spec_pack());
            } else {
                assert forall|n: nat| n >= self.spec_pack().len() implies !(
                #[trigger] before.has_room(n)) by {
                    if before.has_room(n) {
                        assert(between.has_room((n - done.len()) as nat));
                    }
                }
            }
        }
        r
    }

    fn unpack<U: Unpacker, const VERIFY: bool>(
        unpacker: &mut U,
        visitor: &A::UnpackVisitor,
    ) -> (r: Result<Self, UnpackError<Self::UnpackError, U::Error>>) {
        let ghost bytes = unpacker.remaining();
        let ghost start = <(A, B, C)>::spec_unpack(bytes, visitor, VERIFY);
        let first = <(A, B, C)>::unpack::<U, VERIFY>(unpacker, visitor);
        let init = match first {
            Ok(init) => init,
            Err(e) => {
                return Err(e);
            },
        };
        let ghost n = start->Done_1;
        let part = Narrow::<D::UnpackVisitor>::narrow(visitor);
        proof {
            D::lemma_invalid_can_occur(bytes.skip(n as int), part, VERIFY);
        }
        match D::unpack::<U, VERIFY>(unpacker, part) {
            Ok(last) => {
                proof {
                    let m = D::spec_unpack(bytes.skip(n as int), part, VERIFY)->Done_1;
                    assert(bytes.skip(n as int).skip(m as int) =~= bytes.skip(n as int + m));
                }
                Ok((init.0, init.1, init.2, last))
            },
            Err(UnpackError::Packable(e)) => Err(UnpackError::Packable(e.coerce_into())),
            Err(UnpackError::Unpacker(e)) => Err(UnpackError::Unpacker(e)),
        }
    }
}

/// The encoding of a tuple of five components is the encodings of the components, one
/// after the other.
pub proof fn lemma_parts_5<
    A: Packable, B: Packable, C: Packable, D: Packable, E: Packable,
>(parts: &(A, B, C, D, E)) where
    B::UnpackError: CoerceInto<A::UnpackError>,
    A::UnpackVisitor: Narrow<B::UnpackVisitor>,
    C::UnpackError: CoerceInto<A::UnpackError>,
    A::UnpackVisitor: Narrow<C::UnpackVisitor>,
    D::UnpackError: CoerceInto<A::UnpackError>,
    A::UnpackVisitor: Narrow<D::UnpackVisitor>,
    E::UnpackError: CoerceInto<A::UnpackError>,
    A::UnpackVisitor: Narrow<E::UnpackVisitor>,
    ensures
        parts.spec_pack() == parts.0.spec_pack() + parts.1.spec_pack() + parts.2.spec_pack()
            + parts.3.spec_pack() + parts.4.spec_pack(),
{
    let init = (parts.0, parts.1, parts.2, parts.3);
    lemma_parts_4(&init);
}

/// A tuple of five components: the components, packed one after the other.
impl<
    A: Packable, B: Packable, C: Packable, D: Packable, E: Packable,
> Packable for (A, B, C, D, E) where
    B::UnpackError: CoerceInto<A::UnpackError>,
    A::UnpackVisitor: Narrow<B::UnpackVisitor>,
    C::UnpackError: CoerceInto<A::UnpackError>,
    A::UnpackVisitor: Narrow<C::UnpackVisitor>,
    D::UnpackError: CoerceInto<A::UnpackError>,
    A::UnpackVisitor: Narrow<D::UnpackVisitor>,
    E::UnpackError: CoerceInto<A::UnpackError>,
    A::UnpackVisitor: Narrow<E::UnpackVisitor>, {
    type UnpackError = A::UnpackError;

    type UnpackVisitor = A::UnpackVisitor;

    open spec fn valid(&self) -> bool {
        let init = (self.0, self.1, self.2, self.3);
        init.valid() && self.4.valid()
    }

    open spec fn passes(&self, visitor: &A::UnpackVisitor) -> bool {
        let init = (self.0, self.1, self.2, self.3);
        init.passes(visitor) && self.4.passes(
            Narrow::<E::UnpackVisitor>::spec_narrow(visitor),
        )
    }

    open spec fn spec_pack(&self) -> Seq<u8> {
        let init = (self.0, self.1, self.2, self.3);
        init.spec_pack() + self.4.spec_pack()
    }

    open spec fn spec_unpack(bytes: Seq<u8>, visitor: &A::UnpackVisitor, verify: bool) -> Decoded<
        (A::V, B::V, C::V, D::V, E::V),
        <A::UnpackError as ErrorView>::View,
    > {
        match <(A, B, C, D)>::spec_unpack(bytes, visitor, verify) {
            Decoded::Done(init, n) => match E::spec_unpack(
                bytes.skip(n as int),
                Narrow::<E::UnpackVisitor>::spec_narrow(visitor),
                verify,
            ) {
                Decoded::Done(last, m) => Decoded::Done(
                    (init.0, init.1, init.2, init.3, last),
                    n + m,
                ),
                Decoded::Invalid(e) => Decoded::Invalid(
                    <E::UnpackError as CoerceInto<A::UnpackError>>::spec_coerce(e),
                ),
                Decoded::Short(required, had) => Decoded::Short(required, had),
            },
            Decoded::Invalid(e) => Decoded::Invalid(e),
            Decoded::Short(required, had) => Decoded::Short(required, had),
        }
    }

    proof fn lemma_round_trip(&self, rest: Seq<u8>, visitor: &A::UnpackVisitor, verify: bool) {
        let init = (self.0, self.1, self.2, self.3);
        let last = self.4;
        let bytes = self.spec_pack() + rest;
        assert(bytes =~= init.spec_pack() + (last.spec_pack() + rest));
        init.lemma_round_trip(last.spec_pack() + rest, visitor, verify);
        assert(bytes.skip(init.spec_pack().len() as int) =~= last.spec_pack() + rest);
        last.lemma_round_trip(rest, Narrow::<E::UnpackVisitor>::spec_narrow(visitor), verify);
    }

    proof fn lemma_truncated(&self, len: nat, visitor: &A::UnpackVisitor, verify: bool) {
        let init = (self.0, self.1, self.2, self.3);
        let last = self.4;
        let head = init.spec_pack();
        let cut = self.spec_pack().take(len as int);
        if len < head.len() {
            assert(cut =~= head.take(len as int));
            init.lemma_truncated(len, visitor, verify);
        } else {
            let left = (len - head.len()) as nat;
            assert(cut =~= head + last.spec_pack().take(left as int));
            init.lemma_round_trip(last.spec_pack().take(left as int), visitor, verify);
            assert(cut.skip(head.len() as int) =~= last.spec_pack().take(left as int));
            last.lemma_truncated(left, Narrow::<E::UnpackVisitor>::spec_narrow(visitor), verify);
        }
    }

    proof fn lemma_invalid_can_occur(bytes: Seq<u8>, visitor: &A::UnpackVisitor, verify: bool) {
        <(A, B, C, D)>::lemma_invalid_can_occur(bytes, visitor, verify);
        let start = <(A, B, C, D)>::spec_unpack(bytes, visitor, verify);
        if let Decoded::Done(init, n) = start {
            E::lemma_invalid_can_occur(
                bytes.skip(n as int),
                Narrow::<E::UnpackVisitor>::spec_narrow(visitor),
                verify,
            );
            <E::UnpackError as CoerceInto<A::UnpackError>>::lemma_coerce_can_occur();
        }
    }

    fn pack<P: Packer>(&self, packer: &mut P) -> (r: Result<(), P::Error>) {
        proof {
            lemma_parts_5(self);
        }
        let ghost before = *packer;
        self.0.pack(packer)?;
        let ghost done = self.0.spec_pack();
        let ghost between = *packer;
        let r = self.1.pack(packer);
        proof {
            if r is Ok {
                lemma_accepted_twice(&before, &between, packer, done, self.1.spec_pack());
            } else {
                assert forall|n: nat| n >= self.spec_pack().len() implies !(
                #[trigger] before.has_room(n)) by {
                    if before.has_room(n) {
                        assert(between.has_room((n - done.len()) as nat));
                    }
                }
            }
        }
        match r {
            Ok(()) => {},
            Err(e) => {
                return Err(e);
            },
        }
        let ghost done = done + self.1.spec_pack();
        let ghost between = *packer;
        let r = self.2.pack(packer);
        proof {
            if r is Ok {
                lemma_accepted_twice(&before, &between, packer, done, self.2.spec_pack());
            } else {
                assert forall|n: nat| n >= self.spec_pack().len() implies !(
                #[trigger] before.has_room(n)) by {
                    if before.has_room(n) {
                        assert(between.has_room((n - done.len()) as nat));
                    }
                }
            }
        }
        match r {
            Ok(()) => {},
            Err(e) => {
                return Err(e);
            },
        }
        let ghost done = done + self.2.spec_pack();
        let ghost between = *packer;
        let r = self.3.pack(packer);
        proof {
            if r is Ok {
                lemma_accepted_twice(&before, &between, packer, done, self.3.spec_pack());
            } else {
                assert forall|n: nat| n >= self.spec_pack().len() implies !(
                #[trigger] before.has_room(n)) by {
                    if before.has_room(n) {
                        assert(between.has_room((n - done.len()) as nat));
                    }
                }
            }
        }
        match r {
            Ok(()) => {},
            Err(e) => {
                return Err(e);
            },
        }
        let ghost done = done + self.3.spec_pack();
        let ghost between = *packer;
        let r = self.4.pack(packer);
        proof {
            if r is Ok {
                lemma_accepted_twice(&before, &between, packer, done, self.4.spec_pack());
            } else {
                assert forall|n: nat| n >= self.spec_pack().len() implies !(
                #[trigger] before.has_room(n)) by {
                    if before.has_room(n) {
                        assert(between.has_room((n - done.len()) as nat));
                    }
                }
            }
        }
        r
    }

    fn unpack<U: Unpacker, const VERIFY: bool>(
        unpacker: &mut U,
        visitor: &A::UnpackVisitor,
    ) -> (r: Result<Self, UnpackError<Self::UnpackError, U::Error>>) {
        let ghost bytes = unpacker.remaining();
        let ghost start = <(A, B, C, D)>::spec_unpack(bytes, visitor, VERIFY);
        let first = <(A, B, C, D)>::unpack::<U, VERIFY>(unpacker, visitor);
        let init = match first {
            Ok(init) => init,
            Err(e) => {
                return Err(e);
            },
        };
        let ghost n = start->Done_1;
        let part = Narrow::<E::UnpackVisitor>::narrow(visitor);
        proof {
            E::lemma_invalid_can_occur(bytes.skip(n as int), part, VERIFY);
        }
        match E::unpack::<U, VERIFY>(unpacker, part) {
            Ok(last) => {
                proof {
                    let m = E::spec_unpack(bytes.skip(n as int), part, VERIFY)->Done_1;
                    assert(bytes.skip(n as int).skip(m as int) =~= bytes.skip(n as int + m));
                }
                Ok((init.0, init.1, init.2, init.3, last))
            },
            Err(UnpackError::Packable(e)) => Err(UnpackError::Packable(e.coerce_into())),
            Err(UnpackError::Unpacker(e)) => Err(UnpackError::Unpacker(e)),
        }
    }
}

/// The encoding of a tuple of six components is the encodings of the components, one
/// after the other.
pub proof fn lemma_parts_6<
    A: Packable, B: Packable, C: Packable, D: Packable, E: Packable, F: Packable,
>(parts: &(A, B, C, D, E, F)) where
    B::UnpackError: CoerceInto<A::UnpackError>,
    A::UnpackVisitor: Narrow<B::UnpackVisitor>,
    C::UnpackError: CoerceInto<A::UnpackError>,
    A::UnpackVisitor: Narrow<C::UnpackVisitor>,
    D::UnpackError: CoerceInto<A::UnpackError>,
    A::UnpackVisitor: Narrow<D::UnpackVisitor>,
    E::UnpackError: CoerceInto<A::UnpackError>,
    A::UnpackVisitor: Narrow<E::UnpackVisitor>,
    F::UnpackError: CoerceInto<A::UnpackError>,
    A::UnpackVisitor: Narrow<F::UnpackVisitor>,
    ensures
        parts.spec_pack() == parts.0.spec_pack() + parts.1.spec_pack() + parts.2.spec_pack()
            + parts.3.spec_pack() + parts.4.spec_pack() + parts.5.spec_pack(),
{
    let init = (parts.0, parts.1, parts.2, parts.3, parts.4);
    lemma_parts_5(&init);
}

/// A tuple of six components: the components, packed one after the other.
impl<
    A: Packable, B: Packable, C: Packable, D: Packable, E: Packable, F: Packable,
> Packable for (A, B, C, D, E, F) where
    B::UnpackError: CoerceInto<A::UnpackError>,
    A::UnpackVisitor: Narrow<B::UnpackVisitor>,
    C::UnpackError: CoerceInto<A::UnpackError>,
    A::UnpackVisitor: Narrow<C::UnpackVisitor>,
    D::UnpackError: CoerceInto<A::UnpackError>,
    A::UnpackVisitor: Narrow<D::UnpackVisitor>,
    E::UnpackError: CoerceInto<A::UnpackError>,
    A::UnpackVisitor: Narrow<E::UnpackVisitor>,
    F::UnpackError: CoerceInto<A::UnpackError>,
    A::UnpackVisitor: Narrow<F::UnpackVisitor>, {
    type UnpackError = A::UnpackError;

    type UnpackVisitor = A::UnpackVisitor;

    open spec fn valid(&self) -> bool {
        let init = (self.0, self.1, self.2, self.3, self.4);
        init.valid() && self.5.valid()
    }

    open spec fn passes(&self, visitor: &A::UnpackVisitor) -> bool {
        let init = (self.0, self.1, self.2, self.3, self.4);
        init.passes(visitor) && self.5.passes(
            Narrow::<F::UnpackVisitor>::spec_narrow(visitor),
        )
    }

    open spec fn spec_pack(&self) -> Seq<u8> {
        let init = (self.0, self.1, self.2, self.3, self.4);
        init.spec_pack() + self.5.spec_pack()
    }

    open spec fn spec_unpack(bytes: Seq<u8>, visitor: &A::UnpackVisitor, verify: bool) -> Decoded<
        (A::V, B::V, C::V, D::V, E::V, F::V),
        <A::UnpackError as ErrorView>::View,
    > {
        match <(A, B, C, D, E)>::spec_unpack(bytes, visitor, verify) {
            Decoded::Done(init, n) => match F::spec_unpack(
                bytes.skip(n as int),
                Narrow::<F::UnpackVisitor>::spec_narrow(visitor),
                verify,
            ) {
                Decoded::Done(last, m) => Decoded::Done(
                    (init.0, init.1, init.2, init.3, init.4, last),
                    n + m,
                ),
                Decoded::Invalid(e) => Decoded::Invalid(
                    <F::UnpackError as CoerceInto<A::UnpackError>>::spec_coerce(e),
                ),
                Decoded::Short(required, had) => Decoded::Short(required, had),
            },
            Decoded::Invalid(e) => Decoded::Invalid(e),
            Decoded::Short(required, had) => Decoded::Short(required, had),
        }
    }

    proof fn lemma_round_trip(&self, rest: Seq<u8>, visitor: &A::UnpackVisitor, verify: bool) {
        let init = (self.0, self.1, self.2, self.3, self.4);
        let last = self.5;
        let bytes = self.spec_pack() + rest;
        assert(bytes =~= init.spec_pack() + (last.spec_pack() + rest));
        init.lemma_round_trip(last.spec_pack() + rest, visitor, verify);
        assert(bytes.skip(init.spec_pack().len() as int) =~= last.spec_pack() + rest);
        last.lemma_round_trip(rest, Narrow::<F::UnpackVisitor>::spec_narrow(visitor), verify);
    }

    proof fn lemma_truncated(&self, len: nat, visitor: &A::UnpackVisitor, verify: bool) {
        let init = (self.0, self.1, self.2, self.3, self.4);
        let last = self.5;
        let head = init.spec_pack();
        let cut = self.spec_pack().take(len as int);
        if len < head.len() {
            assert(cut =~= head.take(len as int));
            init.lemma_truncated(len, visitor, verify);
        } else {
            let left = (len - head.len()) as nat;
            assert(cut =~= head + last.spec_pack().take(left as int));
            init.lemma_round_trip(last.spec_pack().take(left as int), visitor, verify);
            assert(cut.skip(head.len() as int) =~= last.spec_pack().take(left as int));
            last.lemma_truncated(left, Narrow::<F::UnpackVisitor>::spec_narrow(visitor), verify);
        }
    }

    proof fn lemma_invalid_can_occur(bytes: Seq<u8>, visitor: &A::UnpackVisitor, verify: bool) {
        <(A, B, C, D, E)>::lemma_invalid_can_occur(bytes, visitor, verify);
        let start = <(A, B, C, D, E)>::spec_unpack(bytes, visitor, verify);
        if let Decoded::Done(init, n) = start {
            F::lemma_invalid_can_occur(
                bytes.skip(n as int),
                Narrow::<F::UnpackVisitor>::spec_narrow(visitor),
                verify,
            );
            <F::UnpackError as CoerceInto<A::UnpackError>>::lemma_coerce_can_occur();
        }
    }

    fn pack<P: Packer>(&self, packer: &mut P) -> (r: Result<(), P::Error>) {
        proof {
            lemma_parts_6(self);
        }
        let ghost before = *packer;
        self.0.pack(packer)?;
        let ghost done = self.0.spec_pack();
        let ghost between = *packer;
        let r = self.1.pack(packer);
        proof {
            if r is Ok {
                lemma_accepted_twice(&before, &between, packer, done, self.1.spec_pack());
            } else {
                assert forall|n: nat| n >= self.spec_pack().len() implies !(
                #[trigger] before.has_room(n)) by {
                    if before.has_room(n) {
                        assert(between.has_room((n - done.len()) as nat));
                    }
                }
            }
        }
        match r {
            Ok(()) => {},
            Err(e) => {
                return Err(e);
            },
        }
        let ghost done = done + self.1.spec_pack();
        let ghost between = *packer;
        let r = self.2.pack(packer);
        proof {
            if r is Ok {
                lemma_accepted_twice(&before, &between, packer, done, self.2.spec_pack());
            } else {
                assert forall|n: nat| n >= self.spec_pack().len() implies !(
                #[trigger] before.has_room(n)) by {
                    if before.has_room(n) {
                        assert(between.has_room((n - done.len()) as nat));
                    }
                }
            }
        }
        match r {
            Ok(()) => {},
            Err(e) => {
                return Err(e);
            },
        }
        let ghost done = done + self.2.spec_pack();
        let ghost between = *packer;
        let r = self.3.pack(packer);
        proof {
            if r is Ok {
                lemma_accepted_twice(&before, &between, packer, done, self.3.spec_pack());
            } else {
                assert forall|n: nat| n >= self.spec_pack().len() implies !(
                #[trigger] before.has_room(n)) by {
                    if before.has_room(n) {
                        assert(between.has_room((n - done.len()) as nat));
                    }
                }
            }
        }
        match r {
            Ok(()) => {},
            Err(e) => {
                return Err(e);
            },
        }
        let ghost done = done + self.3.spec_pack();
        let ghost between = *packer;
        let r = self.4.pack(packer);
        proof {
            if r is Ok {
                lemma_accepted_twice(&before, &between, packer, done, self.4.spec_pack());
            } else {
                assert forall|n: nat| n >= self.spec_pack().len() implies !(
                #[trigger] before.has_room(n)) by {
                    if before.has_room(n) {
                        assert(between.has_room((n - done.len()) as nat));
                    }
                }
            }
        }
        match r {
            Ok(()) => {},
            Err(e) => {
                return Err(e);
            },
        }
        let ghost done = done + self.4.spec_pack();
        let ghost between = *packer;
        let r = self.5.pack(packer);
        proof {
            if r is Ok {
                lemma_accepted_twice(&before, &between, packer, done, self.5.spec_pack());
            } else {
                assert forall|n: nat| n >= self.spec_pack().len() implies !(
                #[trigger] before.has_room(n)) by {
                    if before.has_room(n) {
                        assert(between.has_room((n - done.len()) as nat));
                    }
                }
            }
        }
        r
    }

    fn unpack<U: Unpacker, const VERIFY: bool>(
        unpacker: &mut U,
        visitor: &A::UnpackVisitor,
    ) -> (r: Result<Self, UnpackError<Self::UnpackError, U::Error>>) {
        let ghost bytes = unpacker.remaining();
        let ghost start = <(A, B, C, D, E)>::spec_unpack(bytes, visitor, VERIFY);
        let first = <(A, B, C, D, E)>::unpack::<U, VERIFY>(unpacker, visitor);
        let init = match first {
            Ok(init) => init,
            Err(e) => {
                return Err(e);
            },
        };
        let ghost n = start->Done_1;
        let part = Narrow::<F::UnpackVisitor>::narrow(visitor);
        proof {
            F::lemma_invalid_can_occur(bytes.skip(n as int), part, VERIFY);
        }
        match F::unpack::<U, VERIFY>(unpacker, part) {
            Ok(last) => {
                proof {
                    let m = F::spec_unpack(bytes.skip(n as int), part, VERIFY)->Done_1;
                    assert(bytes.skip(n as int).skip(m as int) =~= bytes.skip(n as int + m));
                }
                Ok((init.0, init.1, init.2, init.3, init.4, last))
            },
            Err(UnpackError::Packable(e)) => Err(UnpackError::Packable(e.coerce_into())),
            Err(UnpackError::Unpacker(e)) => Err(UnpackError::Unpacker(e)),
        }
    }
}

/// The encoding of a tuple of seven components is the encodings of the components, one
/// after the other.
pub proof fn lemma_parts_7<
    A: Packable, B: Packable, C: Packable, D: Packable, E: Packable, F: Packable,
    G: Packable,
>(parts: &(A, B, C, D, E, F, G)) where
    B::UnpackError: CoerceInto<A::UnpackError>,
    A::UnpackVisitor: Narrow<B::UnpackVisitor>,
    C::UnpackError: CoerceInto<A::UnpackError>,
    A::UnpackVisitor: Narrow<C::UnpackVisitor>,
    D::UnpackError: CoerceInto<A::UnpackError>,
    A::UnpackVisitor: Narrow<D::UnpackVisitor>,
    E::UnpackError: CoerceInto<A::UnpackError>,
    A::UnpackVisitor: Narrow<E::UnpackVisitor>,
    F::UnpackError: CoerceInto<A::UnpackError>,
    A::UnpackVisitor: Narrow<F::UnpackVisitor>,
    G::UnpackError: CoerceInto<A::UnpackError>,
    A::UnpackVisitor: Narrow<G::UnpackVisitor>,
    ensures
        parts.spec_pack() == parts.0.spec_pack() + parts.1.spec_pack() + parts.2.spec_pack()
            + parts.3.spec_pack() + parts.4.spec_pack() + parts.5.spec_pack()
            + parts.6.spec_pack(),
{
    let init = (parts.0, parts.1, parts.2, parts.3, parts.4, parts.5);
    lemma_parts_6(&init);
}

/// A tuple of seven components: the components, packed one after the other.
impl<
    A: Packable, B: Packable, C: Packable, D: Packable, E: Packable, F: Packable,
    G: Packable,
> Packable for (A, B, C, D, E, F, G) where
    B::UnpackError: CoerceInto<A::UnpackError>,
    A::UnpackVisitor: Narrow<B::UnpackVisitor>,
    C::UnpackError: CoerceInto<A::UnpackError>,
    A::UnpackVisitor: Narrow<C::UnpackVisitor>,
    D::UnpackError: CoerceInto<A::UnpackError>,
    A::UnpackVisitor: Narrow<D::UnpackVisitor>,
    E::UnpackError: CoerceInto<A::UnpackError>,
    A::UnpackVisitor: Narrow<E::UnpackVisitor>,
    F::UnpackError: CoerceInto<A::UnpackError>,
    A::UnpackVisitor: Narrow<F::UnpackVisitor>,
    G::UnpackError: CoerceInto<A::UnpackError>,
    A::UnpackVisitor: Narrow<G::UnpackVisitor>, {
    type UnpackError = A::UnpackError;

    type UnpackVisitor = A::UnpackVisitor;

    open spec fn valid(&self) -> bool {
        let init = (self.0, self.1, self.2, self.3, self.4, self.5);
        init.valid() && self.6.valid()
    }

    open spec fn passes(&self, visitor: &A::UnpackVisitor) -> bool {
        let init = (self.0, self.1, self.2, self.3, self.4, self.5);
        init.passes(visitor) && self.6.passes(
            Narrow::<G::UnpackVisitor>::spec_narrow(visitor),
        )
    }

    open spec fn spec_pack(&self) -> Seq<u8> {
        let init = (self.0, self.1, self.2, self.3, self.4, self.5);
        init.spec_pack() + self.6.spec_pack()
    }

    open spec fn spec_unpack(bytes: Seq<u8>, visitor: &A::UnpackVisitor, verify: bool) -> Decoded<
        (A::V, B::V, C::V, D::V, E::V, F::V, G::V),
        <A::UnpackError as ErrorView>::View,
    > {
        match <(A, B, C, D, E, F)>::spec_unpack(bytes, visitor, verify) {
            Decoded::Done(init, n) => match G::spec_unpack(
                bytes.skip(n as int),
                Narrow::<G::UnpackVisitor>::spec_narrow(visitor),
                verify,
            ) {
                Decoded::Done(last, m) => Decoded::Done(
                    (init.0, init.1, init.2, init.3, init.4, init.5, last),
                    n + m,
                ),
                Decoded::Invalid(e) => Decoded::Invalid(
                    <G::UnpackError as CoerceInto<A::UnpackError>>::spec_coerce(e),
                ),
                Decoded::Short(required, had) => Decoded::Short(required, had),
            },
            Decoded::Invalid(e) => Decoded::Invalid(e),
            Decoded::Short(required, had) => Decoded::Short(required, had),
        }
    }

    proof fn lemma_round_trip(&self, rest: Seq<u8>, visitor: &A::UnpackVisitor, verify: bool) {
        let init = (self.0, self.1, self.2, self.3, self.4, self.5);
        let last = self.6;
        let bytes = self.spec_pack() + rest;
        assert(bytes =~= init.spec_pack() + (last.spec_pack() + rest));
        init.lemma_round_trip(last.spec_pack() + rest, visitor, verify);
        assert(bytes.skip(init.spec_pack().len() as int) =~= last.spec_pack() + rest);
        last.lemma_round_trip(rest, Narrow::<G::UnpackVisitor>::spec_narrow(visitor), verify);
    }

    proof fn lemma_truncated(&self, len: nat, visitor: &A::UnpackVisitor, verify: bool) {
        let init = (self.0, self.1, self.2, self.3, self.4, self.5);
        let last = self.6;
        let head = init.spec_pack();
        let cut = self.spec_pack().take(len as int);
        if len < head.len() {
            assert(cut =~= head.take(len as int));
            init.lemma_truncated(len, visitor, verify);
        } else {
            let left = (len - head.len()) as nat;
            assert(cut =~= head + last.spec_pack().take(left as int));
            init.lemma_round_trip(last.spec_pack().take(left as int), visitor, verify);
            assert(cut.skip(head.len() as int) =~= last.spec_pack().take(left as int));
            last.lemma_truncated(left, Narrow::<G::UnpackVisitor>::spec_narrow(visitor), verify);
        }
    }

    proof fn lemma_invalid_can_occur(bytes: Seq<u8>, visitor: &A::UnpackVisitor, verify: bool) {
        <(A, B, C, D, E, F)>::lemma_invalid_can_occur(bytes, visitor, verify);
        let start = <(A, B, C, D, E, F)>::spec_unpack(bytes, visitor, verify);
        if let Decoded::Done(init, n) = start {
            G::lemma_invalid_can_occur(
                bytes.skip(n as int),
                Narrow::<G::UnpackVisitor>::spec_narrow(visitor),
                verify,
            );
            <G::UnpackError as CoerceInto<A::UnpackError>>::lemma_coerce_can_occur();
        }
    }

    fn pack<P: Packer>(&self, packer: &mut P) -> (r: Result<(), P::Error>) {
        proof {
            lemma_parts_7(self);
        }
        let ghost before = *packer;
        self.0.pack(packer)?;
        let ghost done = self.0.spec_pack();
        let ghost between = *packer;
        let r = self.1.pack(packer);
        proof {
            if r is Ok {
                lemma_accepted_twice(&before, &between, packer, done, self.1.spec_pack());
            } else {
                assert forall|n: nat| n >= self.spec_pack().len() implies !(
                #[trigger] before.has_room(n)) by {
                    if before.has_room(n) {
                        assert(between.has_room((n - done.len()) as nat));
                    }
                }
            }
        }
        match r {
            Ok(()) => {},
            Err(e) => {
                return Err(e);
            },
        }
        let ghost done = done + self.1.spec_pack();
        let ghost between = *packer;
        let r = self.2.pack(packer);
        proof {
            if r is Ok {
                lemma_accepted_twice(&before, &between, packer, done, self.2.spec_pack());
            } else {
                assert forall|n: nat| n >= self.spec_pack().len() implies !(
                #[trigger] before.has_room(n)) by {
                    if before.has_room(n) {
                        assert(between.has_room((n - done.len()) as nat));
                    }
                }
            }
        }
        match r {
            Ok(()) => {},
            Err(e) => {
                return Err(e);
            },
        }
        let ghost done = done + self.2.spec_pack();
        let ghost between = *packer;
        let r = self.3.pack(packer);
        proof {
            if r is Ok {
                lemma_accepted_twice(&before, &between, packer, done, self.3.spec_pack());
            } else {
                assert forall|n: nat| n >= self.spec_pack().len() implies !(
                #[trigger] before.has_room(n)) by {
                    if before.has_room(n) {
                        assert(between.has_room((n - done.len()) as nat));
                    }
                }
            }
        }
        match r {
            Ok(()) => {},
            Err(e) => {
                return Err(e);
            },
        }
        let ghost done = done + self.3.spec_pack();
        let ghost between = *packer;
        let r = self.4.pack(packer);
        proof {
            if r is Ok {
                lemma_accepted_twice(&before, &between, packer, done, self.4.spec_pack());
            } else {
                assert forall|n: nat| n >= self.spec_pack().len() implies !(
                #[trigger] before.has_room(n)) by {
                    if before.has_room(n) {
                        assert(between.has_room((n - done.len()) as nat));
                    }
                }
            }
        }
        match r {
            Ok(()) => {},
            Err(e) => {
                return Err(e);
            },
        }
        let ghost done = done + self.4.spec_pack();
        let ghost between = *packer;
        let r = self.5.pack(packer);
        proof {
            if r is Ok {
                lemma_accepted_twice(&before, &between, packer, done, self.5.spec_pack());
            } else {
                assert forall|n: nat| n >= self.spec_pack().len() implies !(
                #[trigger] before.has_room(n)) by {
                    if before.has_room(n) {
                        assert(between.has_room((n - done.len()) as nat));
                    }
                }
            }
        }
        match r {
            Ok(()) => {},
            Err(e) => {
                return Err(e);
            },
        }
        let ghost done = done + self.5.spec_pack();
        let ghost between = *packer;
        let r = self.6.pack(packer);
        proof {
            if r is Ok {
                lemma_accepted_twice(&before, &between, packer, done, self.6.spec_pack());
            } else {
                assert forall|n: nat| n >= self.spec_pack().len() implies !(
                #[trigger] before.has_room(n)) by {
                    if before.has_room(n) {
                        assert(between.has_room((n - done.len()) as nat));
                    }
                }
            }
        }
        r
    }

    fn unpack<U: Unpacker, const VERIFY: bool>(
        unpacker: &mut U,
        visitor: &A::UnpackVisitor,
    ) -> (r: Result<Self, UnpackError<Self::UnpackError, U::Error>>) {
        let ghost bytes = unpacker.remaining();
        let ghost start = <(A, B, C, D, E, F)>::spec_unpack(bytes, visitor, VERIFY);
        let first = <(A, B, C, D, E, F)>::unpack::<U, VERIFY>(unpacker, visitor);
        let init = match first {
            Ok(init) => init,
            Err(e) => {
                return Err(e);
            },
        };
        let ghost n = start->Done_1;
        let part = Narrow::<G::UnpackVisitor>::narrow(visitor);
        proof {
            G::lemma_invalid_can_occur(bytes.skip(n as int), part, VERIFY);
        }
        match G::unpack::<U, VERIFY>(unpacker, part) {
            Ok(last) => {
                proof {
                    let m = G::spec_unpack(bytes.skip(n as int), part, VERIFY)->Done_1;
                    assert(bytes.skip(n as int).skip(m as int) =~= bytes.skip(n as int + m));
                }
                Ok((init.0, init.1, init.2, init.3, init.4, init.5, last))
            },
            Err(UnpackError::Packable(e)) => Err(UnpackError::Packable(e.coerce_into())),
            Err(UnpackError::Unpacker(e)) => Err(UnpackError::Unpacker(e)),
        }
    }
}

/// The encoding of a tuple of eight components is the encodings of the components, one
/// after the other.
pub proof fn lemma_parts_8<
    A: Packable, B: Packable, C: Packable, D: Packable, E: Packable, F: Packable,
    G: Packable, H: Packable,
>(parts: &(A, B, C, D, E, F, G, H)) where
    B::UnpackError: CoerceInto<A::UnpackError>,
    A::UnpackVisitor: Narrow<B::UnpackVisitor>,
    C::UnpackError: CoerceInto<A::UnpackError>,
    A::UnpackVisitor: Narrow<C::UnpackVisitor>,
    D::UnpackError: CoerceInto<A::UnpackError>,
    A::UnpackVisitor: Narrow<D::UnpackVisitor>,
    E::UnpackError: CoerceInto<A::UnpackError>,
    A::UnpackVisitor: Narrow<E::UnpackVisitor>,
    F::UnpackError: CoerceInto<A::UnpackError>,
    A::UnpackVisitor: Narrow<F::UnpackVisitor>,
    G::UnpackError: CoerceInto<A::UnpackError>,
    A::UnpackVisitor: Narrow<G::UnpackVisitor>,
    H::UnpackError: CoerceInto<A::UnpackError>,
    A::UnpackVisitor: Narrow<H::UnpackVisitor>,
    ensures
        parts.spec_pack() == parts.0.spec_pack() + parts.1.spec_pack() + parts.2.spec_pack()
            + parts.3.spec_pack() + parts.4.spec_pack() + parts.5.spec_pack()
            + parts.6.spec_pack() + parts.7.spec_pack(),
{
    let init = (
        parts.0, parts.1, parts.2, parts.3,
        parts.4, parts.5, parts.6,
    );
    lemma_parts_7(&init);
}

/// A tuple of eight components: the components, packed one after the other.
impl<
    A: Packable, B: Packable, C: Packable, D: Packable, E: Packable, F: Packable,
    G: Packable, H: Packable,
> Packable for (A, B, C, D, E, F, G, H) where
    B::UnpackError: CoerceInto<A::UnpackError>,
    A::UnpackVisitor: Narrow<B::UnpackVisitor>,
    C::UnpackError: CoerceInto<A::UnpackError>,
    A::UnpackVisitor: Narrow<C::UnpackVisitor>,
    D::UnpackError: CoerceInto<A::UnpackError>,
    A::UnpackVisitor: Narrow<D::UnpackVisitor>,
    E::UnpackError: CoerceInto<A::UnpackError>,
    A::UnpackVisitor: Narrow<E::UnpackVisitor>,
    F::UnpackError: CoerceInto<A::UnpackError>,
    A::UnpackVisitor: Narrow<F::UnpackVisitor>,
    G::UnpackError: CoerceInto<A::UnpackError>,
    A::UnpackVisitor: Narrow<G::UnpackVisitor>,
    H::UnpackError: CoerceInto<A::UnpackError>,
    A::UnpackVisitor: Narrow<H::UnpackVisitor>, {
    type UnpackError = A::UnpackError;

    type UnpackVisitor = A::UnpackVisitor;

    open spec fn valid(&self) -> bool {
        let init = (self.0, self.1, self.2, self.3, self.4, self.5, self.6);
        init.valid() && self.7.valid()
    }

    open spec fn passes(&self, visitor: &A::UnpackVisitor) -> bool {
        let init = (self.0, self.1, self.2, self.3, self.4, self.5, self.6);
        init.passes(visitor) && self.7.passes(
            Narrow::<H::UnpackVisitor>::spec_narrow(visitor),
        )
    }

    open spec fn spec_pack(&self) -> Seq<u8> {
        let init = (self.0, self.1, self.2, self.3, self.4, self.5, self.6);
        init.spec_pack() + self.7.spec_pack()
    }

    open spec fn spec_unpack(bytes: Seq<u8>, visitor: &A::UnpackVisitor, verify: bool) -> Decoded<
        (A::V, B::V, C::V, D::V, E::V, F::V, G::V, H::V),
        <A::UnpackError as ErrorView>::View,
    > {
        match <(A, B, C, D, E, F, G)>::spec_unpack(bytes, visitor, verify) {
            Decoded::Done(init, n) => match H::spec_unpack(
                bytes.skip(n as int),
                Narrow::<H::UnpackVisitor>::spec_narrow(visitor),
                verify,
            ) {
                Decoded::Done(last, m) => Decoded::Done(
                    (
                        init.0, init.1, init.2, init.3,
                        init.4, init.5, init.6, last,
                    ),
                    n + m,
                ),
                Decoded::Invalid(e) => Decoded::Invalid(
                    <H::UnpackError as CoerceInto<A::UnpackError>>::spec_coerce(e),
                ),
                Decoded::Short(required, had) => Decoded::Short(required, had),
            },
            Decoded::Invalid(e) => Decoded::Invalid(e),
            Decoded::Short(required, had) => Decoded::Short(required, had),
        }
    }

    proof fn lemma_round_trip(&self, rest: Seq<u8>, visitor: &A::UnpackVisitor, verify: bool) {
        let init = (self.0, self.1, self.2, self.3, self.4, self.5, self.6);
        let last = self.7;
        let bytes = self.spec_pack() + rest;
        assert(bytes =~= init.spec_pack() + (last.spec_pack() + rest));
        init.lemma_round_trip(last.spec_pack() + rest, visitor, verify);
        assert(bytes.skip(init.spec_pack().len() as int) =~= last.spec_pack() + rest);
        last.lemma_round_trip(rest, Narrow::<H::UnpackVisitor>::spec_narrow(visitor), verify);
    }

    proof fn lemma_truncated(&self, len: nat, visitor: &A::UnpackVisitor, verify: bool) {
        let init = (self.0, self.1, self.2, self.3, self.4, self.5, self.6);
        let last = self.7;
        let head = init.spec_pack();
        let cut = self.spec_pack().take(len as int);
        if len < head.len() {
            assert(cut =~= head.take(len as int));
            init.lemma_truncated(len, visitor, verify);
        } else {
            let left = (len - head.len()) as nat;
            assert(cut =~= head + last.spec_pack().take(left as int));
            init.lemma_round_trip(last.spec_pack().take(left as int), visitor, verify);
            assert(cut.skip(head.len() as int) =~= last.spec_pack().take(left as int));
            last.lemma_truncated(left, Narrow::<H::UnpackVisitor>::spec_narrow(visitor), verify);
        }
    }

    proof fn lemma_invalid_can_occur(bytes: Seq<u8>, visitor: &A::UnpackVisitor, verify: bool) {
        <(A, B, C, D, E, F, G)>::lemma_invalid_can_occur(bytes, visitor, verify);
        let start = <(A, B, C, D, E, F, G)>::spec_unpack(bytes, visitor, verify);
        if let Decoded::Done(init, n) = start {
            H::lemma_invalid_can_occur(
                bytes.skip(n as int),
                Narrow::<H::UnpackVisitor>::spec_narrow(visitor),
                verify,
            );
            <H::UnpackError as CoerceInto<A::UnpackError>>::lemma_coerce_can_occur();
        }
    }

    fn pack<P: Packer>(&self, packer: &mut P) -> (r: Result<(), P::Error>) {
        proof {
            lemma_parts_8(self);
        }
        let ghost before = *packer;
        self.0.pack(packer)?;
        let ghost done = self.0.spec_pack();
        let ghost between = *packer;
        let r = self.1.pack(packer);
        proof {
            if r is Ok {
                lemma_accepted_twice(&before, &between, packer, done, self.1.spec_pack());
            } else {
                assert forall|n: nat| n >= self.spec_pack().len() implies !(
                #[trigger] before.has_room(n)) by {
                    if before.has_room(n) {
                        assert(between.has_room((n - done.len()) as nat));
                    }
                }
            }
        }
        match r {
            Ok(()) => {},
            Err(e) => {
                return Err(e);
            },
        }
        let ghost done = done + self.1.spec_pack();
        let ghost between = *packer;
        let r = self.2.pack(packer);
        proof {
            if r is Ok {
                lemma_accepted_twice(&before, &between, packer, done, self.2.spec_pack());
            } else {
                assert forall|n: nat| n >= self.spec_pack().len() implies !(
                #[trigger] before.has_room(n)) by {
                    if before.has_room(n) {
                        assert(between.has_room((n - done.len()) as nat));
                    }
                }
            }
        }
        match r {
            Ok(()) => {},
            Err(e) => {
                return Err(e);
            },
        }
        let ghost done = done + self.2.spec_pack();
        let ghost between = *packer;
        let r = self.3.pack(packer);
        proof {
            if r is Ok {
                lemma_accepted_twice(&before, &between, packer, done, self.3.spec_pack());
            } else {
                assert forall|n: nat| n >= self.spec_pack().len() implies !(
                #[trigger] before.has_room(n)) by {
                    if before.has_room(n) {
                        assert(between.has_room((n - done.len()) as nat));
                    }
                }
            }
        }
        match r {
            Ok(()) => {},
            Err(e) => {
                return Err(e);
            },
        }
        let ghost done = done + self.3.spec_pack();
        let ghost between = *packer;
        let r = self.4.pack(packer);
        proof {
            if r is Ok {
                lemma_accepted_twice(&before, &between, packer, done, self.4.spec_pack());
            } else {
                assert forall|n: nat| n >= self.spec_pack().len() implies !(
                #[trigger] before.has_room(n)) by {
                    if before.has_room(n) {
                        assert(between.has_room((n - done.len()) as nat));
                    }
                }
            }
        }
        match r {
            Ok(()) => {},
            Err(e) => {
                return Err(e);
            },
        }
        let ghost done = done + self.4.spec_pack();
        let ghost between = *packer;
        let r = self.5.pack(packer);
        proof {
            if r is Ok {
                lemma_accepted_twice(&before, &between, packer, done, self.5.spec_pack());
            } else {
                assert forall|n: nat| n >= self.spec_pack().len() implies !(
                #[trigger] before.has_room(n)) by {
                    if before.has_room(n) {
                        assert(between.has_room((n - done.len()) as nat));
                    }
                }
            }
        }
        match r {
            Ok(()) => {},
            Err(e) => {
                return Err(e);
            },
        }
        let ghost done = done + self.5.spec_pack();
        let ghost between = *packer;
        let r = self.6.pack(packer);
        proof {
            if r is Ok {
                lemma_accepted_twice(&before, &between, packer, done, self.6.spec_pack());
            } else {
                assert forall|n: nat| n >= self.spec_pack().len() implies !(
                #[trigger] before.has_room(n)) by {
                    if before.has_room(n) {
                        assert(between.has_room((n - done.len()) as nat));
                    }
                }
            }
        }
        match r {
            Ok(()) => {},
            Err(e) => {
                return Err(e);
            },
        }
        let ghost done = done + self.6.spec_pack();
        let ghost between = *packer;
        let r = self.7.pack(packer);
        proof {
            if r is Ok {
                lemma_accepted_twice(&before, &between, packer, done, self.7.spec_pack());
            } else {
                assert forall|n: nat| n >= self.spec_pack().len() implies !(
                #[trigger] before.has_room(n)) by {
                    if before.has_room(n) {
                        assert(between.has_room((n - done.len()) as nat));
                    }
                }
            }
        }
        r
    }

    fn unpack<U: Unpacker, const VERIFY: bool>(
        unpacker: &mut U,
        visitor: &A::UnpackVisitor,
    ) -> (r: Result<Self, UnpackError<Self::UnpackError, U::Error>>) {
        let ghost bytes = unpacker.remaining();
        let ghost start = <(A, B, C, D, E, F, G)>::spec_unpack(bytes, visitor, VERIFY);
        let first = <(A, B, C, D, E, F, G)>::unpack::<U, VERIFY>(unpacker, visitor);
        let init = match first {
            Ok(init) => init,
            Err(e) => {
                return Err(e);
            },
        };
        let ghost n = start->Done_1;
        let part = Narrow::<H::UnpackVisitor>::narrow(visitor);
        proof {
            H::lemma_invalid_can_occur(bytes.skip(n as int), part, VERIFY);
        }
        match H::unpack::<U, VERIFY>(unpacker, part) {
            Ok(last) => {
                proof {
                    let m = H::spec_unpack(bytes.skip(n as int), part, VERIFY)->Done_1;
                    assert(bytes.skip(n as int).skip(m as int) =~= bytes.skip(n as int + m));
                }
                Ok((
                    init.0, init.1, init.2, init.3,
                    init.4, init.5, init.6, last,
                ))
            },
            Err(UnpackError::Packable(e)) => Err(UnpackError::Packable(e.coerce_into())),
            Err(UnpackError::Unpacker(e)) => Err(UnpackError::Unpacker(e)),
        }
    }
}

/// The encoding of a tuple of nine components is the encodings of the components, one
/// after the other.
pub proof fn lemma_parts_9<
    A: Packable, B: Packable, C: Packable, D: Packable, E: Packable, F: Packable,
    G: Packable, H: Packable, I: Packable,
>(parts: &(A, B, C, D, E, F, G, H, I)) where
    B::UnpackError: CoerceInto<A::UnpackError>,
    A::UnpackVisitor: Narrow<B::UnpackVisitor>,
    C::UnpackError: CoerceInto<A::UnpackError>,
    A::UnpackVisitor: Narrow<C::UnpackVisitor>,
    D::UnpackError: CoerceInto<A::UnpackError>,
    A::UnpackVisitor: Narrow<D::UnpackVisitor>,
    E::UnpackError: CoerceInto<A::UnpackError>,
    A::UnpackVisitor: Narrow<E::UnpackVisitor>,
    F::UnpackError: CoerceInto<A::UnpackError>,
    A::UnpackVisitor: Narrow<F::UnpackVisitor>,
    G::UnpackError: CoerceInto<A::UnpackError>,
    A::UnpackVisitor: Narrow<G::UnpackVisitor>,
    H::UnpackError: CoerceInto<A::UnpackError>,
    A::UnpackVisitor: Narrow<H::UnpackVisitor>,
    I::UnpackError: CoerceInto<A::UnpackError>,
    A::UnpackVisitor: Narrow<I::UnpackVisitor>,
    ensures
        parts.spec_pack() == parts.0.spec_pack() + parts.1.spec_pack() + parts.2.spec_pack()
            + parts.3.spec_pack() + parts.4.spec_pack() + parts.5.spec_pack()
            + parts.6.spec_pack() + parts.7.spec_pack() + parts.8.spec_pack(),
{
    let init = (
        parts.0, parts.1, parts.2, parts.3,
        parts.4, parts.5, parts.6, parts.7,
    );
    lemma_parts_8(&init);
}

/// A tuple of nine components: the components, packed one after the other.
impl<
    A: Packable, B: Packable, C: Packable, D: Packable, E: Packable, F: Packable,
    G: Packable, H: Packable, I: Packable,
> Packable for (A, B, C, D, E, F, G, H, I) where
    B::UnpackError: CoerceInto<A::UnpackError>,
    A::UnpackVisitor: Narrow<B::UnpackVisitor>,
    C::UnpackError: CoerceInto<A::UnpackError>,
    A::UnpackVisitor: Narrow<C::UnpackVisitor>,
    D::UnpackError: CoerceInto<A::UnpackError>,
    A::UnpackVisitor: Narrow<D::UnpackVisitor>,
    E::UnpackError: CoerceInto<A::UnpackError>,
    A::UnpackVisitor: Narrow<E::UnpackVisitor>,
    F::UnpackError: CoerceInto<A::UnpackError>,
    A::UnpackVisitor: Narrow<F::UnpackVisitor>,
    G::UnpackError: CoerceInto<A::UnpackError>,
    A::UnpackVisitor: Narrow<G::UnpackVisitor>,
    H::UnpackError: CoerceInto<A::UnpackError>,
    A::UnpackVisitor: Narrow<H::UnpackVisitor>,
    I::UnpackError: CoerceInto<A::UnpackError>,
    A::UnpackVisitor: Narrow<I::UnpackVisitor>, {
    type UnpackError = A::UnpackError;

    type UnpackVisitor = A::UnpackVisitor;

    open spec fn valid(&self) -> bool {
        let init = (
            self.0, self.1, self.2, self.3,
            self.4, self.5, self.6, self.7,
        );
        init.valid() && self.8.valid()
    }

    open spec fn passes(&self, visitor: &A::UnpackVisitor) -> bool {
        let init = (
            self.0, self.1, self.2, self.3,
            self.4, self.5, self.6, self.7,
        );
        init.passes(visitor) && self.8.passes(
            Narrow::<I::UnpackVisitor>::spec_narrow(visitor),
        )
    }

    open spec fn spec_pack(&self) -> Seq<u8> {
        let init = (
            self.0, self.1, self.2, self.3,
            self.4, self.5, self.6, self.7,
        );
        init.spec_pack() + self.8.spec_pack()
    }

    open spec fn spec_unpack(bytes: Seq<u8>, visitor: &A::UnpackVisitor, verify: bool) -> Decoded<
        (A::V, B::V, C::V, D::V, E::V, F::V, G::V, H::V, I::V),
        <A::UnpackError as ErrorView>::View,
    > {
        match <(A, B, C, D, E, F, G, H)>::spec_unpack(bytes, visitor, verify) {
            Decoded::Done(init, n) => match I::spec_unpack(
                bytes.skip(n as int),
                Narrow::<I::UnpackVisitor>::spec_narrow(visitor),
                verify,
            ) {
                Decoded::Done(last, m) => Decoded::Done(
                    (
                        init.0, init.1, init.2, init.3, init.4,
                        init.5, init.6, init.7, last,
                    ),
                    n + m,
                ),
                Decoded::Invalid(e) => Decoded::Invalid(
                    <I::UnpackError as CoerceInto<A::UnpackError>>::spec_coerce(e),
                ),
                Decoded::Short(required, had) => Decoded::Short(required, had),
            },
            Decoded::Invalid(e) => Decoded::Invalid(e),
            Decoded::Short(required, had) => Decoded::Short(required, had),
        }
    }

    proof fn lemma_round_trip(&self, rest: Seq<u8>, visitor: &A::UnpackVisitor, verify: bool) {
        let init = (
            self.0, self.1, self.2, self.3,
            self.4, self.5, self.6, self.7,
        );
        let last = self.8;
        let bytes = self.spec_pack() + rest;
        assert(bytes =~= init.spec_pack() + (last.spec_pack() + rest));
        init.lemma_round_trip(last.spec_pack() + rest, visitor, verify);
        assert(bytes.skip(init.spec_pack().len() as int) =~= last.spec_pack() + rest);
        last.lemma_round_trip(rest, Narrow::<I::UnpackVisitor>::spec_narrow(visitor), verify);
    }

    proof fn lemma_truncated(&self, len: nat, visitor: &A::UnpackVisitor, verify: bool) {
        let init = (
            self.0, self.1, self.2, self.3,
            self.4, self.5, self.6, self.7,
        );
        let last = self.8;
        let head = init.spec_pack();
        let cut = self.spec_pack().take(len as int);
        if len < head.len() {
            assert(cut =~= head.take(len as int));
            init.lemma_truncated(len, visitor, verify);
        } else {
            let left = (len - head.len()) as nat;
            assert(cut =~= head + last.spec_pack().take(left as int));
            init.lemma_round_trip(last.spec_pack().take(left as int), visitor, verify);
            assert(cut.skip(head.len() as int) =~= last.spec_pack().take(left as int));
            last.lemma_truncated(left, Narrow::<I::UnpackVisitor>::spec_narrow(visitor), verify);
        }
    }

    proof fn lemma_invalid_can_occur(bytes: Seq<u8>, visitor: &A::UnpackVisitor, verify: bool) {
        <(A, B, C, D, E, F, G, H)>::lemma_invalid_can_occur(bytes, visitor, verify);
        let start = <(A, B, C, D, E, F, G, H)>::spec_unpack(bytes, visitor, verify);
        if let Decoded::Done(init, n) = start {
            I::lemma_invalid_can_occur(
                bytes.skip(n as int),
                Narrow::<I::UnpackVisitor>::spec_narrow(visitor),
                verify,
            );
            <I::UnpackError as CoerceInto<A::UnpackError>>::lemma_coerce_can_occur();
        }
    }

    fn pack<P: Packer>(&self, packer: &mut P) -> (r: Result<(), P::Error>) {
        proof {
            lemma_parts_9(self);
        }
        let ghost before = *packer;
        self.0.pack(packer)?;
        let ghost done = self.0.spec_pack();
        let ghost between = *packer;
        let r = self.1.pack(packer);
        proof {
            if r is Ok {
                lemma_accepted_twice(&before, &between, packer, done, self.1.spec_pack());
            } else {
                assert forall|n: nat| n >= self.spec_pack().len() implies !(
                #[trigger] before.has_room(n)) by {
                    if before.has_room(n) {
                        assert(between.has_room((n - done.len()) as nat));
                    }
                }
            }
        }
        match r {
            Ok(()) => {},
            Err(e) => {
                return Err(e);
            },
        }
        let ghost done = done + self.1.spec_pack();
        let ghost between = *packer;
        let r = self.2.pack(packer);
        proof {
            if r is Ok {
                lemma_accepted_twice(&before, &between, packer, done, self.2.spec_pack());
            } else {
                assert forall|n: nat| n >= self.spec_pack().len() implies !(
                #[trigger] before.has_room(n)) by {
                    if before.has_room(n) {
                        assert(between.has_room((n - done.len()) as nat));
                    }
                }
            }
        }
        match r {
            Ok(()) => {},
            Err(e) => {
                return Err(e);
            },
        }
        let ghost done = done + self.2.spec_pack();
        let ghost between = *packer;
        let r = self.3.pack(packer);
        proof {
            if r is Ok {
                lemma_accepted_twice(&before, &between, packer, done, self.3.spec_pack());
            } else {
                assert forall|n: nat| n >= self.spec_pack().len() implies !(
                #[trigger] before.has_room(n)) by {
                    if before.has_room(n) {
                        assert(between.has_room((n - done.len()) as nat));
                    }
                }
            }
        }
        match r {
            Ok(()) => {},
            Err(e) => {
                return Err(e);
            },
        }
        let ghost done = done + self.3.spec_pack();
        let ghost between = *packer;
        let r = self.4.pack(packer);
        proof {
            if r is Ok {
                lemma_accepted_twice(&before, &between, packer, done, self.4.spec_pack());
            } else {
                assert forall|n: nat| n >= self.spec_pack().len() implies !(
                #[trigger] before.has_room(n)) by {
                    if before.has_room(n) {
                        assert(between.has_room((n - done.len()) as nat));
                    }
                }
            }
        }
        match r {
            Ok(()) => {},
            Err(e) => {
                return Err(e);
            },
        }
        let ghost done = done + self.4.spec_pack();
        let ghost between = *packer;
        let r = self.5.pack(packer);
        proof {
            if r is Ok {
                lemma_accepted_twice(&before, &between, packer, done, self.5.spec_pack());
            } else {
                assert forall|n: nat| n >= self.spec_pack().len() implies !(
                #[trigger] before.has_room(n)) by {
                    if before.has_room(n) {
                        assert(between.has_room((n - done.len()) as nat));
                    }
                }
            }
        }
        match r {
            Ok(()) => {},
            Err(e) => {
                return Err(e);
            },
        }
        let ghost done = done + self.5.spec_pack();
        let ghost between = *packer;
        let r = self.6.pack(packer);
        proof {
            if r is Ok {
                lemma_accepted_twice(&before, &between, packer, done, self.6.spec_pack());
            } else {
                assert forall|n: nat| n >= self.spec_pack().len() implies !(
                #[trigger] before.has_room(n)) by {
                    if before.has_room(n) {
                        assert(between.has_room((n - done.len()) as nat));
                    }
                }
            }
        }
        match r {
            Ok(()) => {},
            Err(e) => {
                return Err(e);
            },
        }
        let ghost done = done + self.6.spec_pack();
        let ghost between = *packer;
        let r = self.7.pack(packer);
        proof {
            if r is Ok {
                lemma_accepted_twice(&before, &between, packer, done, self.7.spec_pack());
            } else {
                assert forall|n: nat| n >= self.spec_pack().len() implies !(
                #[trigger] before.has_room(n)) by {
                    if before.has_room(n) {
                        assert(between.has_room((n - done.len()) as nat));
                    }
                }
            }
        }
        match r {
            Ok(()) => {},
            Err(e) => {
                return Err(e);
            },
        }
        let ghost done = done + self.7.spec_pack();
        let ghost between = *packer;
        let r = self.8.pack(packer);
        proof {
            if r is Ok {
                lemma_accepted_twice(&before, &between, packer, done, self.8.spec_pack());
            } else {
                assert forall|n: nat| n >= self.spec_pack().len() implies !(
                #[trigger] before.has_room(n)) by {
                    if before.has_room(n) {
                        assert(between.has_room((n - done.len()) as nat));
                    }
                }
            }
        }
        r
    }

    fn unpack<U: Unpacker, const VERIFY: bool>(
        unpacker: &mut U,
        visitor: &A::UnpackVisitor,
    ) -> (r: Result<Self, UnpackError<Self::UnpackError, U::Error>>) {
        let ghost bytes = unpacker.remaining();
        let ghost start = <(A, B, C, D, E, F, G, H)>::spec_unpack(bytes, visitor, VERIFY);
        let first = <(A, B, C, D, E, F, G, H)>::unpack::<U, VERIFY>(unpacker, visitor);
        let init = match first {
            Ok(init) => init,
            Err(e) => {
                return Err(e);
            },
        };
        let ghost n = start->Done_1;
        let part = Narrow::<I::UnpackVisitor>::narrow(visitor);
        proof {
            I::lemma_invalid_can_occur(bytes.skip(n as int), part, VERIFY);
        }
        match I::unpack::<U, VERIFY>(unpacker, part) {
            Ok(last) => {
                proof {
                    let m = I::spec_unpack(bytes.skip(n as int), part, VERIFY)->Done_1;
                    assert(bytes.skip(n as int).skip(m as int) =~= bytes.skip(n as int + m));
                }
                Ok((
                    init.0, init.1, init.2, init.3, init.4,
                    init.5, init.6, init.7, last,
                ))
            },
            Err(UnpackError::Packable(e)) => Err(UnpackError::Packable(e.coerce_into())),
            Err(UnpackError::Unpacker(e)) => Err(UnpackError::Unpacker(e)),
        }
    }
}

/// The encoding of a tuple of ten components is the encodings of the components, one
/// after the other.
pub proof fn lemma_parts_10<
    A: Packable, B: Packable, C: Packable, D: Packable, E: Packable, F: Packable,
    G: Packable, H: Packable, I: Packable, J: Packable,
>(parts: &(A, B, C, D, E, F, G, H, I, J)) where
    B::UnpackError: CoerceInto<A::UnpackError>,
    A::UnpackVisitor: Narrow<B::UnpackVisitor>,
    C::UnpackError: CoerceInto<A::UnpackError>,
    A::UnpackVisitor: Narrow<C::UnpackVisitor>,
    D::UnpackError: CoerceInto<A::UnpackError>,
    A::UnpackVisitor: Narrow<D::UnpackVisitor>,
    E::UnpackError: CoerceInto<A::UnpackError>,
    A::UnpackVisitor: Narrow<E::UnpackVisitor>,
    F::UnpackError: CoerceInto<A::UnpackError>,
    A::UnpackVisitor: Narrow<F::UnpackVisitor>,
    G::UnpackError: CoerceInto<A::UnpackError>,
    A::UnpackVisitor: Narrow<G::UnpackVisitor>,
    H::UnpackError: CoerceInto<A::UnpackError>,
    A::UnpackVisitor: Narrow<H::UnpackVisitor>,
    I::UnpackError: CoerceInto<A::UnpackError>,
    A::UnpackVisitor: Narrow<I::UnpackVisitor>,
    J::UnpackError: CoerceInto<A::UnpackError>,
    A::UnpackVisitor: Narrow<J::UnpackVisitor>,
    ensures
        parts.spec_pack() == parts.0.spec_pack() + parts.1.spec_pack() + parts.2.spec_pack()
            + parts.3.spec_pack() + parts.4.spec_pack() + parts.5.spec_pack()
            + parts.6.spec_pack() + parts.7.spec_pack() + parts.8.spec_pack()
            + parts.9.spec_pack(),
{
    let init = (
        parts.0, parts.1, parts.2, parts.3, parts.4,
        parts.5, parts.6, parts.7, parts.8,
    );
    lemma_parts_9(&init);
}

/// A tuple of ten components: the components, packed one after the other.
impl<
    A: Packable, B: Packable, C: Packable, D: Packable, E: Packable, F: Packable,
    G: Packable, H: Packable, I: Packable, J: Packable,
> Packable for (A, B, C, D, E, F, G, H, I, J) where
    B::UnpackError: CoerceInto<A::UnpackError>,
    A::UnpackVisitor: Narrow<B::UnpackVisitor>,
    C::UnpackError: CoerceInto<A::UnpackError>,
    A::UnpackVisitor: Narrow<C::UnpackVisitor>,
    D::UnpackError: CoerceInto<A::UnpackError>,
    A::UnpackVisitor: Narrow<D::UnpackVisitor>,
    E::UnpackError: CoerceInto<A::UnpackError>,
    A::UnpackVisitor: Narrow<E::UnpackVisitor>,
    F::UnpackError: CoerceInto<A::UnpackError>,
    A::UnpackVisitor: Narrow<F::UnpackVisitor>,
    G::UnpackError: CoerceInto<A::UnpackError>,
    A::UnpackVisitor: Narrow<G::UnpackVisitor>,
    H::UnpackError: CoerceInto<A::UnpackError>,
    A::UnpackVisitor: Narrow<H::UnpackVisitor>,
    I::UnpackError: CoerceInto<A::UnpackError>,
    A::UnpackVisitor: Narrow<I::UnpackVisitor>,
    J::UnpackError: CoerceInto<A::UnpackError>,
    A::UnpackVisitor: Narrow<J::UnpackVisitor>, {
    type UnpackError = A::UnpackError;

    type UnpackVisitor = A::UnpackVisitor;

    open spec fn valid(&self) -> bool {
        let init = (
            self.0, self.1, self.2, self.3, self.4,
            self.5, self.6, self.7, self.8,
        );
        init.valid() && self.9.valid()
    }

    open spec fn passes(&self, visitor: &A::UnpackVisitor) -> bool {
        let init = (
            self.0, self.1, self.2, self.3, self.4,
            self.5, self.6, self.7, self.8,
        );
        init.passes(visitor) && self.9.passes(
            Narrow::<J::UnpackVisitor>::spec_narrow(visitor),
        )
    }

    open spec fn spec_pack(&self) -> Seq<u8> {
        let init = (
            self.0, self.1, self.2, self.3, self.4,
            self.5, self.6, self.7, self.8,
        );
        init.spec_pack() + self.9.spec_pack()
    }

    open spec fn spec_unpack(bytes: Seq<u8>, visitor: &A::UnpackVisitor, verify: bool) -> Decoded<
        (A::V, B::V, C::V, D::V, E::V, F::V, G::V, H::V, I::V, J::V),
        <A::UnpackError as ErrorView>::View,
    > {
        match <(A, B, C, D, E, F, G, H, I)>::spec_unpack(bytes, visitor, verify) {
            Decoded::Done(init, n) => match J::spec_unpack(
                bytes.skip(n as int),
                Narrow::<J::UnpackVisitor>::spec_narrow(visitor),
                verify,
            ) {
                Decoded::Done(last, m) => Decoded::Done(
                    (
                        init.0, init.1, init.2, init.3, init.4,
                        init.5, init.6, init.7, init.8, last,
                    ),
                    n + m,
                ),
                Decoded::Invalid(e) => Decoded::Invalid(
                    <J::UnpackError as CoerceInto<A::UnpackError>>::spec_coerce(e),
                ),
                Decoded::Short(required, had) => Decoded::Short(required, had),
            },
            Decoded::Invalid(e) => Decoded::Invalid(e),
            Decoded::Short(required, had) => Decoded::Short(required, had),
        }
    }

    proof fn lemma_round_trip(&self, rest: Seq<u8>, visitor: &A::UnpackVisitor, verify: bool) {
        let init = (
            self.0, self.1, self.2, self.3, self.4,
            self.5, self.6, self.7, self.8,
        );
        let last = self.9;
        let bytes = self.spec_pack() + rest;
        assert(bytes =~= init.spec_pack() + (last.spec_pack() + rest));
        init.lemma_round_trip(last.spec_pack() + rest, visitor, verify);
        assert(bytes.skip(init.spec_pack().len() as int) =~= last.spec_pack() + rest);
        last.lemma_round_trip(rest, Narrow::<J::UnpackVisitor>::spec_narrow(visitor), verify);
    }

    proof fn lemma_truncated(&self, len: nat, visitor: &A::UnpackVisitor, verify: bool) {
        let init = (
            self.0, self.1, self.2, self.3, self.4,
            self.5, self.6, self.7, self.8,
        );
        let last = self.9;
        let head = init.spec_pack();
        let cut = self.spec_pack().take(len as int);
        if len < head.len() {
            assert(cut =~= head.take(len as int));
            init.lemma_truncated(len, visitor, verify);
        } else {
            let left = (len - head.len()) as nat;
            assert(cut =~= head + last.spec_pack().take(left as int));
            init.lemma_round_trip(last.spec_pack().take(left as int), visitor, verify);
            assert(cut.skip(head.len() as int) =~= last.spec_pack().take(left as int));
            last.lemma_truncated(left, Narrow::<J::UnpackVisitor>::spec_narrow(visitor), verify);
        }
    }

    proof fn lemma_invalid_can_occur(bytes: Seq<u8>, visitor: &A::UnpackVisitor, verify: bool) {
        <(A, B, C, D, E, F, G, H, I)>::lemma_invalid_can_occur(bytes, visitor, verify);
        let start = <(A, B, C, D, E, F, G, H, I)>::spec_unpack(bytes, visitor, verify);
        if let Decoded::Done(init, n) = start {
            J::lemma_invalid_can_occur(
                bytes.skip(n as int),
                Narrow::<J::UnpackVisitor>::spec_narrow(visitor),
                verify,
            );
            <J::UnpackError as CoerceInto<A::UnpackError>>::lemma_coerce_can_occur();
        }
    }

    fn pack<P: Packer>(&self, packer: &mut P) -> (r: Result<(), P::Error>) {
        proof {
            lemma_parts_10(self);
        }
        let ghost before = *packer;
        self.0.pack(packer)?;
        let ghost done = self.0.spec_pack();
        let ghost between = *packer;
        let r = self.1.pack(packer);
        proof {
            if r is Ok {
                lemma_accepted_twice(&before, &between, packer, done, self.1.spec_pack());
            } else {
                assert forall|n: nat| n >= self.spec_pack().len() implies !(
                #[trigger] before.has_room(n)) by {
                    if before.has_room(n) {
                        assert(between.has_room((n - done.len()) as nat));
                    }
                }
            }
        }
        match r {
            Ok(()) => {},
            Err(e) => {
                return Err(e);
            },
        }
        let ghost done = done + self.1.spec_pack();
        let ghost between = *packer;
        let r = self.2.pack(packer);
        proof {
            if r is Ok {
                lemma_accepted_twice(&before, &between, packer, done, self.2.spec_pack());
            } else {
                assert forall|n: nat| n >= self.spec_pack().len() implies !(
                #[trigger] before.has_room(n)) by {
                    if before.has_room(n) {
                        assert(between.has_room((n - done.len()) as nat));
                    }
                }
            }
        }
        match r {
            Ok(()) => {},
            Err(e) => {
                return Err(e);
            },
        }
        let ghost done = done + self.2.spec_pack();
        let ghost between = *packer;
        let r = self.3.pack(packer);
        proof {
            if r is Ok {
                lemma_accepted_twice(&before, &between, packer, done, self.3.spec_pack());
            } else {
                assert forall|n: nat| n >= self.spec_pack().len() implies !(
                #[trigger] before.has_room(n)) by {
                    if before.has_room(n) {
                        assert(between.has_room((n - done.len()) as nat));
                    }
                }
            }
        }
        match r {
            Ok(()) => {},
            Err(e) => {
                return Err(e);
            },
        }
        let ghost done = done + self.3.spec_pack();
        let ghost between = *packer;
        let r = self.4.pack(packer);
        proof {
            if r is Ok {
                lemma_accepted_twice(&before, &between, packer, done, self.4.spec_pack());
            } else {
                assert forall|n: nat| n >= self.spec_pack().len() implies !(
                #[trigger] before.has_room(n)) by {
                    if before.has_room(n) {
                        assert(between.has_room((n - done.len()) as nat));
                    }
                }
            }
        }
        match r {
            Ok(()) => {},
            Err(e) => {
                return Err(e);
            },
        }
        let ghost done = done + self.4.spec_pack();
        let ghost between = *packer;
        let r = self.5.pack(packer);
        proof {
            if r is Ok {
                lemma_accepted_twice(&before, &between, packer, done, self.5.spec_pack());
            } else {
                assert forall|n: nat| n >= self.spec_pack().len() implies !(
                #[trigger] before.has_room(n)) by {
                    if before.has_room(n) {
                        assert(between.has_room((n - done.len()) as nat));
                    }
                }
            }
        }
        match r {
            Ok(()) => {},
            Err(e) => {
                return Err(e);
            },
        }
        let ghost done = done + self.5.spec_pack();
        let ghost between = *packer;
        let r = self.6.pack(packer);
        proof {
            if r is Ok {
                lemma_accepted_twice(&before, &between, packer, done, self.6.spec_pack());
            } else {
                assert forall|n: nat| n >= self.spec_pack().len() implies !(
                #[trigger] before.has_room(n)) by {
                    if before.has_room(n) {
                        assert(between.has_room((n - done.len()) as nat));
                    }
                }
            }
        }
        match r {
            Ok(()) => {},
            Err(e) => {
                return Err(e);
            },
        }
        let ghost done = done + self.6.spec_pack();
        let ghost between = *packer;
        let r = self.7.pack(packer);
        proof {
            if r is Ok {
                lemma_accepted_twice(&before, &between, packer, done, self.7.spec_pack());
            } else {
                assert forall|n: nat| n >= self.spec_pack().len() implies !(
                #[trigger] before.has_room(n)) by {
                    if before.has_room(n) {
                        assert(between.has_room((n - done.len()) as nat));
                    }
                }
            }
        }
        match r {
            Ok(()) => {},
            Err(e) => {
                return Err(e);
            },
        }
        let ghost done = done + self.7.spec_pack();
        let ghost between = *packer;
        let r = self.8.pack(packer);
        proof {
            if r is Ok {
                lemma_accepted_twice(&before, &between, packer, done, self.8.spec_pack());
            } else {
                assert forall|n: nat| n >= self.spec_pack().len() implies !(
                #[trigger] before.has_room(n)) by {
                    if before.has_room(n) {
                        assert(between.has_room((n - done.len()) as nat));
                    }
                }
            }
        }
        match r {
            Ok(()) => {},
            Err(e) => {
                return Err(e);
            },
        }
        let ghost done = done + self.8.spec_pack();
        let ghost between = *packer;
        let r = self.9.pack(packer);
        proof {
            if r is Ok {
                lemma_accepted_twice(&before, &between, packer, done, self.9.spec_pack());
            } else {
                assert forall|n: nat| n >= self.spec_pack().len() implies !(
                #[trigger] before.has_room(n)) by {
                    if before.has_room(n) {
                        assert(between.has_room((n - done.len()) as nat));
                    }
                }
            }
        }
        r
    }

    fn unpack<U: Unpacker, const VERIFY: bool>(
        unpacker: &mut U,
        visitor: &A::UnpackVisitor,
    ) -> (r: Result<Self, UnpackError<Self::UnpackError, U::Error>>) {
        let ghost bytes = unpacker.remaining();
        let ghost start = <(A, B, C, D, E, F, G, H, I)>::spec_unpack(bytes, visitor, VERIFY);
        let first = <(A, B, C, D, E, F, G, H, I)>::unpack::<U, VERIFY>(unpacker, visitor);
        let init = match first {
            Ok(init) => init,
            Err(e) => {
                return Err(e);
            },
        };
        let ghost n = start->Done_1;
        let part = Narrow::<J::UnpackVisitor>::narrow(visitor);
        proof {
            J::lemma_invalid_can_occur(bytes.skip(n as int), part, VERIFY);
        }
        match J::unpack::<U, VERIFY>(unpacker, part) {
            Ok(last) => {
                proof {
                    let m = J::spec_unpack(bytes.skip(n as int), part, VERIFY)->Done_1;
                    assert(bytes.skip(n as int).skip(m as int) =~= bytes.skip(n as int + m));
                }
                Ok((
                    init.0, init.1, init.2, init.3, init.4,
                    init.5, init.6, init.7, init.8, last,
                ))
            },
            Err(UnpackError::Packable(e)) => Err(UnpackError::Packable(e.coerce_into())),
            Err(UnpackError::Unpacker(e)) => Err(UnpackError::Unpacker(e)),
        }
    }
}

/// The encoding of a tuple of eleven components is the encodings of the components, one
/// after the other.
pub proof fn lemma_parts_11<
    A: Packable, B: Packable, C: Packable, D: Packable, E: Packable, F: Packable,
    G: Packable, H: Packable, I: Packable, J: Packable, K: Packable,
>(parts: &(A, B, C, D, E, F, G, H, I, J, K)) where
    B::UnpackError: CoerceInto<A::UnpackError>,
    A::UnpackVisitor: Narrow<B::UnpackVisitor>,
    C::UnpackError: CoerceInto<A::UnpackError>,
    A::UnpackVisitor: Narrow<C::UnpackVisitor>,
    D::UnpackError: CoerceInto<A::UnpackError>,
    A::UnpackVisitor: Narrow<D::UnpackVisitor>,
    E::UnpackError: CoerceInto<A::UnpackError>,
    A::UnpackVisitor: Narrow<E::UnpackVisitor>,
    F::UnpackError: CoerceInto<A::UnpackError>,
    A::UnpackVisitor: Narrow<F::UnpackVisitor>,
    G::UnpackError: CoerceInto<A::UnpackError>,
    A::UnpackVisitor: Narrow<G::UnpackVisitor>,
    H::UnpackError: CoerceInto<A::UnpackError>,
    A::UnpackVisitor: Narrow<H::UnpackVisitor>,
    I::UnpackError: CoerceInto<A::UnpackError>,
    A::UnpackVisitor: Narrow<I::UnpackVisitor>,
    J::UnpackError: CoerceInto<A::UnpackError>,
    A::UnpackVisitor: Narrow<J::UnpackVisitor>,
    K::UnpackError: CoerceInto<A::UnpackError>,
    A::UnpackVisitor: Narrow<K::UnpackVisitor>,
    ensures
        parts.spec_pack() == parts.0.spec_pack() + parts.1.spec_pack() + parts.2.spec_pack()
            + parts.3.spec_pack() + parts.4.spec_pack() + parts.5.spec_pack()
            + parts.6.spec_pack() + parts.7.spec_pack() + parts.8.spec_pack()
            + parts.9.spec_pack() + parts.10.spec_pack(),
{
    let init = (
        parts.0, parts.1, parts.2, parts.3, parts.4,
        parts.5, parts.6, parts.7, parts.8, parts.9,
    );
    lemma_parts_10(&init);
}

/// A tuple of eleven components: the components, packed one after the other.
impl<
    A: Packable, B: Packable, C: Packable, D: Packable, E: Packable, F: Packable,
    G: Packable, H: Packable, I: Packable, J: Packable, K: Packable,
> Packable for (A, B, C, D, E, F, G, H, I, J, K) where
    B::UnpackError: CoerceInto<A::UnpackError>,
    A::UnpackVisitor: Narrow<B::UnpackVisitor>,
    C::UnpackError: CoerceInto<A::UnpackError>,
    A::UnpackVisitor: Narrow<C::UnpackVisitor>,
    D::UnpackError: CoerceInto<A::UnpackError>,
    A::UnpackVisitor: Narrow<D::UnpackVisitor>,
    E::UnpackError: CoerceInto<A::UnpackError>,
    A::UnpackVisitor: Narrow<E::UnpackVisitor>,
    F::UnpackError: CoerceInto<A::UnpackError>,
    A::UnpackVisitor: Narrow<F::UnpackVisitor>,
    G::UnpackError: CoerceInto<A::UnpackError>,
    A::UnpackVisitor: Narrow<G::UnpackVisitor>,
    H::UnpackError: CoerceInto<A::UnpackError>,
    A::UnpackVisitor: Narrow<H::UnpackVisitor>,
    I::UnpackError: CoerceInto<A::UnpackError>,
    A::UnpackVisitor: Narrow<I::UnpackVisitor>,
    J::UnpackError: CoerceInto<A::UnpackError>,
    A::UnpackVisitor: Narrow<J::UnpackVisitor>,
    K::UnpackError: CoerceInto<A::UnpackError>,
    A::UnpackVisitor: Narrow<K::UnpackVisitor>, {
    type UnpackError = A::UnpackError;

    type UnpackVisitor = A::UnpackVisitor;

    open spec fn valid(&self) -> bool {
        let init = (
            self.0, self.1, self.2, self.3, self.4,
            self.5, self.6, self.7, self.8, self.9,
        );
        init.valid() && self.10.valid()
    }

    open spec fn passes(&self, visitor: &A::UnpackVisitor) -> bool {
        let init = (
            self.0, self.1, self.2, self.3, self.4,
            self.5, self.6, self.7, self.8, self.9,
        );
        init.passes(visitor) && self.10.passes(
            Narrow::<K::UnpackVisitor>::spec_narrow(visitor),
        )
    }

    open spec fn spec_pack(&self) -> Seq<u8> {
        let init = (
            self.0, self.1, self.2, self.3, self.4,
            self.5, self.6, self.7, self.8, self.9,
        );
        init.spec_pack() + self.10.spec_pack()
    }

    open spec fn spec_unpack(bytes: Seq<u8>, visitor: &A::UnpackVisitor, verify: bool) -> Decoded<
        (A::V, B::V, C::V, D::V, E::V, F::V, G::V, H::V, I::V, J::V, K::V),
        <A::UnpackError as ErrorView>::View,
    > {
        match <(A, B, C, D, E, F, G, H, I, J)>::spec_unpack(bytes, visitor, verify) {
            Decoded::Done(init, n) => match K::spec_unpack(
                bytes.skip(n as int),
                Narrow::<K::UnpackVisitor>::spec_narrow(visitor),
                verify,
            ) {
                Decoded::Done(last, m) => Decoded::Done(
                    (
                        init.0, init.1, init.2, init.3, init.4, init.5,
                        init.6, init.7, init.8, init.9, last,
                    ),
                    n + m,
                ),
                Decoded::Invalid(e) => Decoded::Invalid(
                    <K::UnpackError as CoerceInto<A::UnpackError>>::spec_coerce(e),
                ),
                Decoded::Short(required, had) => Decoded::Short(required, had),
            },
            Decoded::Invalid(e) => Decoded::Invalid(e),
            Decoded::Short(required, had) => Decoded::Short(required, had),
        }
    }

    proof fn lemma_round_trip(&self, rest: Seq<u8>, visitor: &A::UnpackVisitor, verify: bool) {
        let init = (
            self.0, self.1, self.2, self.3, self.4,
            self.5, self.6, self.7, self.8, self.9,
        );
        let last = self.10;
        let bytes = self.spec_pack() + rest;
        assert(bytes =~= init.spec_pack() + (last.spec_pack() + rest));
        init.lemma_round_trip(last.spec_pack() + rest, visitor, verify);
        assert(bytes.skip(init.spec_pack().len() as int) =~= last.spec_pack() + rest);
        last.lemma_round_trip(rest, Narrow::<K::UnpackVisitor>::spec_narrow(visitor), verify);
    }

    proof fn lemma_truncated(&self, len: nat, visitor: &A::UnpackVisitor, verify: bool) {
        let init = (
            self.0, self.1, self.2, self.3, self.4,
            self.5, self.6, self.7, self.8, self.9,
        );
        let last = self.10;
        let head = init.spec_pack();
        let cut = self.spec_pack().take(len as int);
        if len < head.len() {
            assert(cut =~= head.take(len as int));
            init.lemma_truncated(len, visitor, verify);
        } else {
            let left = (len - head.len()) as nat;
            assert(cut =~= head + last.spec_pack().take(left as int));
            init.lemma_round_trip(last.spec_pack().take(left as int), visitor, verify);
            assert(cut.skip(head.len() as int) =~= last.spec_pack().take(left as int));
            last.lemma_truncated(left, Narrow::<K::UnpackVisitor>::spec_narrow(visitor), verify);
        }
    }

    proof fn lemma_invalid_can_occur(bytes: Seq<u8>, visitor: &A::UnpackVisitor, verify: bool) {
        <(A, B, C, D, E, F, G, H, I, J)>::lemma_invalid_can_occur(bytes, visitor, verify);
        let start = <(A, B, C, D, E, F, G, H, I, J)>::spec_unpack(bytes, visitor, verify);
        if let Decoded::Done(init, n) = start {
            K::lemma_invalid_can_occur(
                bytes.skip(n as int),
                Narrow::<K::UnpackVisitor>::spec_narrow(visitor),
                verify,
            );
            <K::UnpackError as CoerceInto<A::UnpackError>>::lemma_coerce_can_occur();
        }
    }

    fn pack<P: Packer>(&self, packer: &mut P) -> (r: Result<(), P::Error>) {
        proof {
            lemma_parts_11(self);
        }
        let ghost before = *packer;
        self.0.pack(packer)?;
        let ghost done = self.0.spec_pack();
        let ghost between = *packer;
        let r = self.1.pack(packer);
        proof {
            if r is Ok {
                lemma_accepted_twice(&before, &between, packer, done, self.1.spec_pack());
            } else {
                assert forall|n: nat| n >= self.spec_pack().len() implies !(
                #[trigger] before.has_room(n)) by {
                    if before.has_room(n) {
                        assert(between.has_room((n - done.len()) as nat));
                    }
                }
            }
        }
        match r {
            Ok(()) => {},
            Err(e) => {
                return Err(e);
            },
        }
        let ghost done = done + self.1.spec_pack();
        let ghost between = *packer;
        let r = self.2.pack(packer);
        proof {
            if r is Ok {
                lemma_accepted_twice(&before, &between, packer, done, self.2.spec_pack());
            } else {
                assert forall|n: nat| n >= self.spec_pack().len() implies !(
                #[trigger] before.has_room(n)) by {
                    if before.has_room(n) {
                        assert(between.has_room((n - done.len()) as nat));
                    }
                }
            }
        }
        match r {
            Ok(()) => {},
            Err(e) => {
                return Err(e);
            },
        }
        let ghost done = done + self.2.spec_pack();
        let ghost between = *packer;
        let r = self.3.pack(packer);
        proof {
            if r is Ok {
                lemma_accepted_twice(&before, &between, packer, done, self.3.spec_pack());
            } else {
                assert forall|n: nat| n >= self.spec_pack().len() implies !(
                #[trigger] before.has_room(n)) by {
                    if before.has_room(n) {
                        assert(between.has_room((n - done.len()) as nat));
                    }
                }
            }
        }
        match r {
            Ok(()) => {},
            Err(e) => {
                return Err(e);
            },
        }
        let ghost done = done + self.3.spec_pack();
        let ghost between = *packer;
        let r = self.4.pack(packer);
        proof {
            if r is Ok {
                lemma_accepted_twice(&before, &between, packer, done, self.4.spec_pack());
            } else {
                assert forall|n: nat| n >= self.spec_pack().len() implies !(
                #[trigger] before.has_room(n)) by {
                    if before.has_room(n) {
                        assert(between.has_room((n - done.len()) as nat));
                    }
                }
            }
        }
        match r {
            Ok(()) => {},
            Err(e) => {
                return Err(e);
            },
        }
        let ghost done = done + self.4.spec_pack();
        let ghost between = *packer;
        let r = self.5.pack(packer);
        proof {
            if r is Ok {
                lemma_accepted_twice(&before, &between, packer, done, self.5.spec_pack());
            } else {
                assert forall|n: nat| n >= self.spec_pack().len() implies !(
                #[trigger] before.has_room(n)) by {
                    if before.has_room(n) {
                        assert(between.has_room((n - done.len()) as nat));
                    }
                }
            }
        }
        match r {
            Ok(()) => {},
            Err(e) => {
                return Err(e);
            },
        }
        let ghost done = done + self.5.spec_pack();
        let ghost between = *packer;
        let r = self.6.pack(packer);
        proof {
            if r is Ok {
                lemma_accepted_twice(&before, &between, packer, done, self.6.spec_pack());
            } else {
                assert forall|n: nat| n >= self.spec_pack().len() implies !(
                #[trigger] before.has_room(n)) by {
                    if before.has_room(n) {
                        assert(between.has_room((n - done.len()) as nat));
                    }
                }
            }
        }
        match r {
            Ok(()) => {},
            Err(e) => {
                return Err(e);
            },
        }
        let ghost done = done + self.6.spec_pack();
        let ghost between = *packer;
        let r = self.7.pack(packer);
        proof {
            if r is Ok {
                lemma_accepted_twice(&before, &between, packer, done, self.7.spec_pack());
            } else {
                assert forall|n: nat| n >= self.spec_pack().len() implies !(
                #[trigger] before.has_room(n)) by {
                    if before.has_room(n) {
                        assert(between.has_room((n - done.len()) as nat));
                    }
                }
            }
        }
        match r {
            Ok(()) => {},
            Err(e) => {
                return Err(e);
            },
        }
        let ghost done = done + self.7.spec_pack();
        let ghost between = *packer;
        let r = self.8.pack(packer);
        proof {
            if r is Ok {
                lemma_accepted_twice(&before, &between, packer, done, self.8.spec_pack());
            } else {
                assert forall|n: nat| n >= self.spec_pack().len() implies !(
                #[trigger] before.has_room(n)) by {
                    if before.has_room(n) {
                        assert(between.has_room((n - done.len()) as nat));
                    }
                }
            }
        }
        match r {
            Ok(()) => {},
            Err(e) => {
                return Err(e);
            },
        }
        let ghost done = done + self.8.spec_pack();
        let ghost between = *packer;
        let r = self.9.pack(packer);
        proof {
            if r is Ok {
                lemma_accepted_twice(&before, &between, packer, done, self.9.spec_pack());
            } else {
                assert forall|n: nat| n >= self.spec_pack().len() implies !(
                #[trigger] before.has_room(n)) by {
                    if before.has_room(n) {
                        assert(between.has_room((n - done.len()) as nat));
                    }
                }
            }
        }
        match r {
            Ok(()) => {},
            Err(e) => {
                return Err(e);
            },
        }
        let ghost done = done + self.9.spec_pack();
        let ghost between = *packer;
        let r = self.10.pack(packer);
        proof {
            if r is Ok {
                lemma_accepted_twice(&before, &between, packer, done, self.10.spec_pack());
            } else {
                assert forall|n: nat| n >= self.spec_pack().len() implies !(
                #[trigger] before.has_room(n)) by {
                    if before.has_room(n) {
                        assert(between.has_room((n - done.len()) as nat));
                    }
                }
            }
        }
        r
    }

    fn unpack<U: Unpacker, const VERIFY: bool>(
        unpacker: &mut U,
        visitor: &A::UnpackVisitor,
    ) -> (r: Result<Self, UnpackError<Self::UnpackError, U::Error>>) {
        let ghost bytes = unpacker.remaining();
        let ghost start = <(A, B, C, D, E, F, G, H, I, J)>::spec_unpack(bytes, visitor, VERIFY);
        let first = <(A, B, C, D, E, F, G, H, I, J)>::unpack::<U, VERIFY>(unpacker, visitor);
        let init = match first {
            Ok(init) => init,
            Err(e) => {
                return Err(e);
            },
        };
        let ghost n = start->Done_1;
        let part = Narrow::<K::UnpackVisitor>::narrow(visitor);
        proof {
            K::lemma_invalid_can_occur(bytes.skip(n as int), part, VERIFY);
        }
        match K::unpack::<U, VERIFY>(unpacker, part) {
            Ok(last) => {
                proof {
                    let m = K::spec_unpack(bytes.skip(n as int), part, VERIFY)->Done_1;
                    assert(bytes.skip(n as int).skip(m as int) =~= bytes.skip(n as int + m));
                }
                Ok((
                    init.0, init.1, init.2, init.3, init.4, init.5,
                    init.6, init.7, init.8, init.9, last,
                ))
            },
            Err(UnpackError::Packable(e)) => Err(UnpackError::Packable(e.coerce_into())),
            Err(UnpackError::Unpacker(e)) => Err(UnpackError::Unpacker(e)),
        }
    }
}

/// The encoding of a tuple of twelve components is the encodings of the components, one
/// after the other.
pub proof fn lemma_parts_12<
    A: Packable, B: Packable, C: Packable, D: Packable, E: Packable, F: Packable,
    G: Packable, H: Packable, I: Packable, J: Packable, K: Packable, L: Packable,
>(parts: &(A, B, C, D, E, F, G, H, I, J, K, L)) where
    B::UnpackError: CoerceInto<A::UnpackError>,
    A::UnpackVisitor: Narrow<B::UnpackVisitor>,
    C::UnpackError: CoerceInto<A::UnpackError>,
    A::UnpackVisitor: Narrow<C::UnpackVisitor>,
    D::UnpackError: CoerceInto<A::UnpackError>,
    A::UnpackVisitor: Narrow<D::UnpackVisitor>,
    E::UnpackError: CoerceInto<A::UnpackError>,
    A::UnpackVisitor: Narrow<E::UnpackVisitor>,
    F::UnpackError: CoerceInto<A::UnpackError>,
    A::UnpackVisitor: Narrow<F::UnpackVisitor>,
    G::UnpackError: CoerceInto<A::UnpackError>,
    A::UnpackVisitor: Narrow<G::UnpackVisitor>,
    H::UnpackError: CoerceInto<A::UnpackError>,
    A::UnpackVisitor: Narrow<H::UnpackVisitor>,
    I::UnpackError: CoerceInto<A::UnpackError>,
    A::UnpackVisitor: Narrow<I::UnpackVisitor>,
    J::UnpackError: CoerceInto<A::UnpackError>,
    A::UnpackVisitor: Narrow<J::UnpackVisitor>,
    K::UnpackError: CoerceInto<A::UnpackError>,
    A::UnpackVisitor: Narrow<K::UnpackVisitor>,
    L::UnpackError: CoerceInto<A::UnpackError>,
    A::UnpackVisitor: Narrow<L::UnpackVisitor>,
    ensures
        parts.spec_pack() == parts.0.spec_pack() + parts.1.spec_pack() + parts.2.spec_pack()
            + parts.3.spec_pack() + parts.4.spec_pack() + parts.5.spec_pack()
            + parts.6.spec_pack() + parts.7.spec_pack() + parts.8.spec_pack()
            + parts.9.spec_pack() + parts.10.spec_pack() + parts.11.spec_pack(),
{
    let init = (
        parts.0, parts.1, parts.2, parts.3, parts.4, parts.5,
        parts.6, parts.7, parts.8, parts.9, parts.10,
    );
    lemma_parts_11(&init);
}

/// A tuple of twelve components: the components, packed one after the other.
impl<
    A: Packable, B: Packable, C: Packable, D: Packable, E: Packable, F: Packable,
    G: Packable, H: Packable, I: Packable, J: Packable, K: Packable, L: Packable,
> Packable for (A, B, C, D, E, F, G, H, I, J, K, L) where
    B::UnpackError: CoerceInto<A::UnpackError>,
    A::UnpackVisitor: Narrow<B::UnpackVisitor>,
    C::UnpackError: CoerceInto<A::UnpackError>,
    A::UnpackVisitor: Narrow<C::UnpackVisitor>,
    D::UnpackError: CoerceInto<A::UnpackError>,
    A::UnpackVisitor: Narrow<D::UnpackVisitor>,
    E::UnpackError: CoerceInto<A::UnpackError>,
    A::UnpackVisitor: Narrow<E::UnpackVisitor>,
    F::UnpackError: CoerceInto<A::UnpackError>,
    A::UnpackVisitor: Narrow<F::UnpackVisitor>,
    G::UnpackError: CoerceInto<A::UnpackError>,
    A::UnpackVisitor: Narrow<G::UnpackVisitor>,
    H::UnpackError: CoerceInto<A::UnpackError>,
    A::UnpackVisitor: Narrow<H::UnpackVisitor>,
    I::UnpackError: CoerceInto<A::UnpackError>,
    A::UnpackVisitor: Narrow<I::UnpackVisitor>,
    J::UnpackError: CoerceInto<A::UnpackError>,
    A::UnpackVisitor: Narrow<J::UnpackVisitor>,
    K::UnpackError: CoerceInto<A::UnpackError>,
    A::UnpackVisitor: Narrow<K::UnpackVisitor>,
    L::UnpackError: CoerceInto<A::UnpackError>,
    A::UnpackVisitor: Narrow<L::UnpackVisitor>, {
    type UnpackError = A::UnpackError;

    type UnpackVisitor = A::UnpackVisitor;

    open spec fn valid(&self) -> bool {
        let init = (
            self.0, self.1, self.2, self.3, self.4, self.5,
            self.6, self.7, self.8, self.9, self.10,
        );
        init.valid() && self.11.valid()
    }

    open spec fn passes(&self, visitor: &A::UnpackVisitor) -> bool {
        let init = (
            self.0, self.1, self.2, self.3, self.4, self.5,
            self.6, self.7, self.8, self.9, self.10,
        );
        init.passes(visitor) && self.11.passes(
            Narrow::<L::UnpackVisitor>::spec_narrow(visitor),
        )
    }

    open spec fn spec_pack(&self) -> Seq<u8> {
        let init = (
            self.0, self.1, self.2, self.3, self.4, self.5,
            self.6, self.7, self.8, self.9, self.10,
        );
        init.spec_pack() + self.11.spec_pack()
    }

    open spec fn spec_unpack(bytes: Seq<u8>, visitor: &A::UnpackVisitor, verify: bool) -> Decoded<
        (A::V, B::V, C::V, D::V, E::V, F::V, G::V, H::V, I::V, J::V, K::V, L::V),
        <A::UnpackError as ErrorView>::View,
    > {
        match <(A, B, C, D, E, F, G, H, I, J, K)>::spec_unpack(bytes, visitor, verify) {
            Decoded::Done(init, n) => match L::spec_unpack(
                bytes.skip(n as int),
                Narrow::<L::UnpackVisitor>::spec_narrow(visitor),
                verify,
            ) {
                Decoded::Done(last, m) => Decoded::Done(
                    (
                        init.0, init.1, init.2, init.3, init.4, init.5,
                        init.6, init.7, init.8, init.9, init.10, last,
                    ),
                    n + m,
                ),
                Decoded::Invalid(e) => Decoded::Invalid(
                    <L::UnpackError as CoerceInto<A::UnpackError>>::spec_coerce(e),
                ),
                Decoded::Short(required, had) => Decoded::Short(required, had),
            },
            Decoded::Invalid(e) => Decoded::Invalid(e),
            Decoded::Short(required, had) => Decoded::Short(required, had),
        }
    }

    proof fn lemma_round_trip(&self, rest: Seq<u8>, visitor: &A::UnpackVisitor, verify: bool) {
        let init = (
            self.0, self.1, self.2, self.3, self.4, self.5,
            self.6, self.7, self.8, self.9, self.10,
        );
        let last = self.11;
        let bytes = self.spec_pack() + rest;
        assert(bytes =~= init.spec_pack() + (last.spec_pack() + rest));
        init.lemma_round_trip(last.spec_pack() + rest, visitor, verify);
        assert(bytes.skip(init.spec_pack().len() as int) =~= last.spec_pack() + rest);
        last.lemma_round_trip(rest, Narrow::<L::UnpackVisitor>::spec_narrow(visitor), verify);
    }

    proof fn lemma_truncated(&self, len: nat, visitor: &A::UnpackVisitor, verify: bool) {
        let init = (
            self.0, self.1, self.2, self.3, self.4, self.5,
            self.6, self.7, self.8, self.9, self.10,
        );
        let last = self.11;
        let head = init.spec_pack();
        let cut = self.spec_pack().take(len as int);
        if len < head.len() {
            assert(cut =~= head.take(len as int));
            init.lemma_truncated(len, visitor, verify);
        } else {
            let left = (len - head.len()) as nat;
            assert(cut =~= head + last.spec_pack().take(left as int));
            init.lemma_round_trip(last.spec_pack().take(left as int), visitor, verify);
            assert(cut.skip(head.len() as int) =~= last.spec_pack().take(left as int));
            last.lemma_truncated(left, Narrow::<L::UnpackVisitor>::spec_narrow(visitor), verify);
        }
    }

    proof fn lemma_invalid_can_occur(bytes: Seq<u8>, visitor: &A::UnpackVisitor, verify: bool) {
        <(A, B, C, D, E, F, G, H, I, J, K)>::lemma_invalid_can_occur(bytes, visitor, verify);
        let start = <(A, B, C, D, E, F, G, H, I, J, K)>::spec_unpack(bytes, visitor, verify);
        if let Decoded::Done(init, n) = start {
            L::lemma_invalid_can_occur(
                bytes.skip(n as int),
                Narrow::<L::UnpackVisitor>::spec_narrow(visitor),
                verify,
            );
            <L::UnpackError as CoerceInto<A::UnpackError>>::lemma_coerce_can_occur();
        }
    }

    fn pack<P: Packer>(&self, packer: &mut P) -> (r: Result<(), P::Error>) {
        proof {
            lemma_parts_12(self);
        }
        let ghost before = *packer;
        self.0.pack(packer)?;
        let ghost done = self.0.spec_pack();
        let ghost between = *packer;
        let r = self.1.pack(packer);
        proof {
            if r is Ok {
                lemma_accepted_twice(&before, &between, packer, done, self.1.spec_pack());
            } else {
                assert forall|n: nat| n >= self.spec_pack().len() implies !(
                #[trigger] before.has_room(n)) by {
                    if before.has_room(n) {
                        assert(between.has_room((n - done.len()) as nat));
                    }
                }
            }
        }
        match r {
            Ok(()) => {},
            Err(e) => {
                return Err(e);
            },
        }
        let ghost done = done + self.1.spec_pack();
        let ghost between = *packer;
        let r = self.2.pack(packer);
        proof {
            if r is Ok {
                lemma_accepted_twice(&before, &between, packer, done, self.2.spec_pack());
            } else {
                assert forall|n: nat| n >= self.spec_pack().len() implies !(
                #[trigger] before.has_room(n)) by {
                    if before.has_room(n) {
                        assert(between.has_room((n - done.len()) as nat));
                    }
                }
            }
        }
        match r {
            Ok(()) => {},
            Err(e) => {
                return Err(e);
            },
        }
        let ghost done = done + self.2.spec_pack();
        let ghost between = *packer;
        let r = self.3.pack(packer);
        proof {
            if r is Ok {
                lemma_accepted_twice(&before, &between, packer, done, self.3.spec_pack());
            } else {
                assert forall|n: nat| n >= self.spec_pack().len() implies !(
                #[trigger] before.has_room(n)) by {
                    if before.has_room(n) {
                        assert(between.has_room((n - done.len()) as nat));
                    }
                }
            }
        }
        match r {
            Ok(()) => {},
            Err(e) => {
                return Err(e);
            },
        }
        let ghost done = done + self.3.spec_pack();
        let ghost between = *packer;
        let r = self.4.pack(packer);
        proof {
            if r is Ok {
                lemma_accepted_twice(&before, &between, packer, done, self.4.spec_pack());
            } else {
                assert forall|n: nat| n >= self.spec_pack().len() implies !(
                #[trigger] before.has_room(n)) by {
                    if before.has_room(n) {
                        assert(between.has_room((n - done.len()) as nat));
                    }
                }
            }
        }
        match r {
            Ok(()) => {},
            Err(e) => {
                return Err(e);
            },
        }
        let ghost done = done + self.4.spec_pack();
        let ghost between = *packer;
        let r = self.5.pack(packer);
        proof {
            if r is Ok {
                lemma_accepted_twice(&before, &between, packer, done, self.5.spec_pack());
            } else {
                assert forall|n: nat| n >= self.spec_pack().len() implies !(
                #[trigger] before.has_room(n)) by {
                    if before.has_room(n) {
                        assert(between.has_room((n - done.len()) as nat));
                    }
                }
            }
        }
        match r {
            Ok(()) => {},
            Err(e) => {
                return Err(e);
            },
        }
        let ghost done = done + self.5.spec_pack();
        let ghost between = *packer;
        let r = self.6.pack(packer);
        proof {
            if r is Ok {
                lemma_accepted_twice(&before, &between, packer, done, self.6.spec_pack());
            } else {
                assert forall|n: nat| n >= self.spec_pack().len() implies !(
                #[trigger] before.has_room(n)) by {
                    if before.has_room(n) {
                        assert(between.has_room((n - done.len()) as nat));
                    }
                }
            }
        }
        match r {
            Ok(()) => {},
            Err(e) => {
                return Err(e);
            },
        }
        let ghost done = done + self.6.spec_pack();
        let ghost between = *packer;
        let r = self.7.pack(packer);
        proof {
            if r is Ok {
                lemma_accepted_twice(&before, &between, packer, done, self.7.spec_pack());
            } else {
                assert forall|n: nat| n >= self.spec_pack().len() implies !(
                #[trigger] before.has_room(n)) by {
                    if before.has_room(n) {
                        assert(between.has_room((n - done.len()) as nat));
                    }
                }
            }
        }
        match r {
            Ok(()) => {},
            Err(e) => {
                return Err(e);
            },
        }
        let ghost done = done + self.7.spec_pack();
        let ghost between = *packer;
        let r = self.8.pack(packer);
        proof {
            if r is Ok {
                lemma_accepted_twice(&before, &between, packer, done, self.8.spec_pack());
            } else {
                assert forall|n: nat| n >= self.spec_pack().len() implies !(
                #[trigger] before.has_room(n)) by {
                    if before.has_room(n) {
                        assert(between.has_room((n - done.len()) as nat));
                    }
                }
            }
        }
        match r {
            Ok(()) => {},
            Err(e) => {
                return Err(e);
            },
        }
        let ghost done = done + self.8.spec_pack();
        let ghost between = *packer;
        let r = self.9.pack(packer);
        proof {
            if r is Ok {
                lemma_accepted_twice(&before, &between, packer, done, self.9.spec_pack());
            } else {
                assert forall|n: nat| n >= self.spec_pack().len() implies !(
                #[trigger] before.has_room(n)) by {
                    if before.has_room(n) {
                        assert(between.has_room((n - done.len()) as nat));
                    }
                }
            }
        }
        match r {
            Ok(()) => {},
            Err(e) => {
                return Err(e);
            },
        }
        let ghost done = done + self.9.spec_pack();
        let ghost between = *packer;
        let r = self.10.pack(packer);
        proof {
            if r is Ok {
                lemma_accepted_twice(&before, &between, packer, done, self.10.spec_pack());
            } else {
                assert forall|n: nat| n >= self.spec_pack().len() implies !(
                #[trigger] before.has_room(n)) by {
                    if before.has_room(n) {
                        assert(between.has_room((n - done.len()) as nat));
                    }
                }
            }
        }
        match r {
            Ok(()) => {},
            Err(e) => {
                return Err(e);
            },
        }
        let ghost done = done + self.10.spec_pack();
        let ghost between = *packer;
        let r = self.11.pack(packer);
        proof {
            if r is Ok {
                lemma_accepted_twice(&before, &between, packer, done, self.11.spec_pack());
            } else {
                assert forall|n: nat| n >= self.spec_pack().len() implies !(
                #[trigger] before.has_room(n)) by {
                    if before.has_room(n) {
                        assert(between.has_room((n - done.len()) as nat));
                    }
                }
            }
        }
        r
    }

    fn unpack<U: Unpacker, const VERIFY: bool>(
        unpacker: &mut U,
        visitor: &A::UnpackVisitor,
    ) -> (r: Result<Self, UnpackError<Self::UnpackError, U::Error>>) {
        let ghost bytes = unpacker.remaining();
        let ghost start = <(A, B, C, D, E, F, G, H, I, J, K)>::spec_unpack(bytes, visitor, VERIFY);
        let first = <(A, B, C, D, E, F, G, H, I, J, K)>::unpack::<U, VERIFY>(unpacker, visitor);
        let init = match first {
            Ok(init) => init,
            Err(e) => {
                return Err(e);
            },
        };
        let ghost n = start->Done_1;
        let part = Narrow::<L::UnpackVisitor>::narrow(visitor);
        proof {
            L::lemma_invalid_can_occur(bytes.skip(n as int), part, VERIFY);
        }
        match L::unpack::<U, VERIFY>(unpacker, part) {
            Ok(last) => {
                proof {
                    let m = L::spec_unpack(bytes.skip(n as int), part, VERIFY)->Done_1;
                    assert(bytes.skip(n as int).skip(m as int) =~= bytes.skip(n as int + m));
                }
                Ok((
                    init.0, init.1, init.2, init.3, init.4, init.5,
                    init.6, init.7, init.8, init.9, init.10, last,
                ))
            },
            Err(UnpackError::Packable(e)) => Err(UnpackError::Packable(e.coerce_into())),
            Err(UnpackError::Unpacker(e)) => Err(UnpackError::Unpacker(e)),
        }
    }
}

} // verus!
