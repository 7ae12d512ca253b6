//! Where random bytes come from.
//!
//! A sampler draws its bytes from a `ByteSource`. The source remembers, for the proofs, all
//! that it has handed out: what a sampler returns is then stated as a function of the bytes
//! that it drew, whatever they were.
use crate::error::Error;
use openssl::error::ErrorStack;
use vstd::prelude::*;

verus! {

/// The errors of OpenSSL. Nothing is claimed of what one holds.
#[verifier::external_type_specification]
#[verifier::external_body]
pub struct ExErrorStack(ErrorStack);

/// `openssl::rand::rand_bytes` overwrites the buffer with random bytes, or fails. It panics
/// on a buffer longer than a C `int` can count. The claim is only that the buffer keeps its
/// length: which bytes it then holds, and whether the call succeeds, is up to chance and
/// the machine.
pub assume_specification[ openssl::rand::rand_bytes ](buf: &mut [u8]) -> (r: Result<
    (),
    ErrorStack,
>)
    requires
        old(buf)@.len() <= 0x7fff_ffff,
    ensures
        final(buf)@.len() == old(buf)@.len(),
;

/// A source of random bytes: the system's generator, or a script that is replayed.
pub struct ByteSource {
    script: Option<Vec<u8>>,
    position: usize,
    drawn: Ghost<Seq<u8>>,
    requests: Ghost<Seq<nat>>,
}

impl ByteSource {
    /// All bytes that the source has handed out, the oldest first.
    pub closed spec fn drawn(self) -> Seq<u8> {
        self.drawn@
    }

    /// How many bytes each request asked for, the oldest request first.
    pub closed spec fn requests(self) -> Seq<nat> {
        self.requests@
    }

    /// The bytes that a replayed script holds, those already handed out included; `None`
    /// for the system's generator.
    pub closed spec fn script(self) -> Option<Seq<u8>> {
        match self.script {
            Some(script) => Some(script@),
            None => None,
        }
    }

    /// A script is handed out from its start, in order.
    pub closed spec fn wf(self) -> bool {
        self.script matches Some(script) ==> self.position <= script@.len() && self.drawn@
            == script@.take(self.position as int)
    }

    /// The bytes that were handed out between `self` and the later state `after`.
    pub open spec fn taken(self, after: ByteSource) -> Seq<u8> {
        after.drawn().skip(self.drawn().len() as int)
    }

    /// How many bytes each request between `self` and the later state `after` asked for.
    pub open spec fn asked(self, after: ByteSource) -> Seq<nat> {
        after.requests().skip(self.requests().len() as int)
    }

    /// `after` is `self` with further bytes asked for and handed out; a script hands out what
    /// it has left, in order.
    pub open spec fn advances_to(self, after: ByteSource) -> bool {
        &&& after.wf()
        &&& after.script() == self.script()
        &&& after.drawn() == self.drawn() + self.taken(after)
        &&& after.requests() == self.requests() + self.asked(after)
        &&& self.script() is Some ==> self.remaining() == self.taken(after) + after.remaining()
    }

    /// What a script has left.
    pub open spec fn remaining(self) -> Seq<u8>
        recommends
            self.script() is Some,
    {
        self.script()->0.skip(self.drawn().len() as int)
    }

    /// `outcome` is what comes of reading the source from `self` to `after` by `read`.
    ///
    /// Applied to a sequence of bytes, `read` gives the value that the bytes at its start
    /// encode and how many bytes that takes, or `None` where the bytes end too early.
    /// A value comes out exactly as the bytes that were handed out encode it. The source
    /// failed only before a value was complete, and a script only where it is too short.
    pub open spec fn reads<T>(
        self,
        after: ByteSource,
        read: spec_fn(Seq<u8>) -> Option<(T, nat)>,
        outcome: Result<T, Error>,
    ) -> bool {
        &&& self.advances_to(after)
        &&& match outcome {
            Ok(value) => read(self.taken(after)) == Some((value, self.taken(after).len())),
            Err(error) => {
                &&& error == Error::Entropy
                &&& read(self.taken(after)) is None
                &&& self.script() is Some ==> read(self.remaining()) is None
            },
        }
    }

    /// Nothing is handed out between a state and itself.
    pub proof fn lemma_still(self)
        requires
            self.wf(),
        ensures
            self.advances_to(self),
            self.taken(self) == Seq::<u8>::empty(),
            self.asked(self) == Seq::<nat>::empty(),
    {
        assert(self.taken(self) =~= Seq::<u8>::empty());
        assert(self.asked(self) =~= Seq::<nat>::empty());
        assert(self.remaining() =~= self.taken(self) + self.remaining());
    }

    /// What is asked for and handed out in two steps is so in order.
    pub proof fn lemma_chain(self, middle: ByteSource, after: ByteSource)
        requires
            self.wf(),
            self.advances_to(middle),
            middle.advances_to(after),
        ensures
            self.advances_to(after),
            self.taken(after) == self.taken(middle) + middle.taken(after),
            self.asked(after) == self.asked(middle) + middle.asked(after),
    {
        assert(self.taken(after) =~= self.taken(middle) + middle.taken(after));
        assert(after.drawn() =~= self.drawn() + self.taken(after));
        assert(self.asked(after) =~= self.asked(middle) + middle.asked(after));
        assert(after.requests() =~= self.requests() + self.asked(after));
        if self.script() is Some {
            assert(self.remaining() =~= self.taken(after) + after.remaining());
        }
    }

    /// What a script has handed out is its start.
    pub proof fn lemma_drawn_is_prefix(self)
        requires
            self.wf(),
        ensures
            self.script() matches Some(script) ==> self.drawn().len() <= script.len()
                && self.drawn() == script.take(self.drawn().len() as int),
    {
        assert(self.script is Some ==> self.drawn().len() == self.position);
    }

    /// No script hands out more bytes than memory can hold.
    pub proof fn lemma_script_bound(self)
        requires
            self.wf(),
            self.script() is Some,
        ensures
            self.drawn().len() <= usize::MAX,
    {
        assert(self.script->0.len() <= usize::MAX);
    }

    /// The system's generator.
    pub fn system() -> (source: ByteSource)
        ensures
            source.wf(),
            source.script() is None,
            source.drawn() == Seq::<u8>::empty(),
            source.requests() == Seq::<nat>::empty(),
    {
        ByteSource {
            script: None,
            position: 0,
            drawn: Ghost(Seq::empty()),
            requests: Ghost(Seq::empty()),
        }
    }

    /// A source that hands out the bytes of `script` in order and fails when they run out.
    pub fn replay(script: Vec<u8>) -> (source: ByteSource)
        ensures
            source.wf(),
            source.script() == Some(script@),
            source.drawn() == Seq::<u8>::empty(),
            source.requests() == Seq::<nat>::empty(),
    {
        assert(script@.take(0) =~= Seq::<u8>::empty());
        ByteSource {
            script: Some(script),
            position: 0,
            drawn: Ghost(Seq::empty()),
            requests: Ghost(Seq::empty()),
        }
    }

    /// Draws `count` bytes in one request. Those of the system's generator are the ones with
    /// which OpenSSL fills a buffer of that length.
    pub fn fill_bytes(&mut self, count: usize) -> (bytes: Result<Vec<u8>, Error>)
        requires
            old(self).wf(),
            count <= 0x7fff_ffff,
        ensures
            old(self).advances_to(*final(self)),
            old(self).asked(*final(self)) == seq![count as nat],
            match bytes {
                Ok(bytes) => bytes@.len() == count && old(self).taken(*final(self)) == bytes@,
                Err(error) => {
                    &&& error == Error::Entropy
                    &&& old(self).taken(*final(self)) == Seq::<u8>::empty()
                    &&& old(self).script() is Some ==> old(self).remaining().len() < count
                },
            },
            old(self).script() is None ==> exists|
                buffer: &mut [u8],
                outcome: Result<(), ErrorStack>,
            | #[trigger]
                call_ensures(openssl::rand::rand_bytes, (buffer,), outcome) && buffer@.len()
                    == count && match outcome {
                    Ok(_) => bytes matches Ok(bytes) && bytes@ == final(buffer)@,
                    Err(_) => bytes is Err,
                },
    {
        let start: usize = self.position;
        let mut bytes: Vec<u8> = vec![0u8; count];
        self.requests = Ghost(self.requests@.push(count as nat));
        proof {
            let before = *old(self);
            before.lemma_still();
            assert(before.asked(*self) =~= seq![count as nat]);
            assert(self.requests() =~= before.requests() + before.asked(*self));
        }
        let delivery = match &self.script {
            Some(script) => {
                if script.len() - start < count {
                    return Err(Error::Entropy);
                }
                for i in 0..count
                    invariant
                        bytes@.len() == count,
                        start + count <= script.len(),
                        forall|j: int| 0 <= j < i ==> bytes@[j] == script@[start + j],
                {
                    bytes.set(i, script[start + i]);
                }
                assert(script@.take(start + count) =~= script@.take(start as int) + bytes@);
                self.position = start + count;
                Ok(bytes)
            },
            None => {
                let outcome = openssl::rand::rand_bytes(bytes.as_mut_slice());
                delivered(outcome, bytes)
            },
        };
        let bytes: Vec<u8> = match delivery {
            Ok(bytes) => bytes,
            Err(error) => return Err(error),
        };
        self.drawn = Ghost(self.drawn@ + bytes@);
        proof {
            assert(old(self).taken(*self) =~= bytes@);
            if self.script() is Some {
                assert(old(self).remaining() =~= bytes@ + self.remaining());
            }
        }
        Ok(bytes)
    }
}

/// What comes of a request to OpenSSL: the buffer where the request succeeded, and an error
/// where it did not, for then the buffer does not hold random bytes.
pub fn delivered(outcome: Result<(), ErrorStack>, bytes: Vec<u8>) -> (delivery: Result<
    Vec<u8>,
    Error,
>)
    ensures
        match outcome {
            Ok(_) => delivery == Ok::<Vec<u8>, Error>(bytes),
            Err(_) => delivery == Err::<Vec<u8>, Error>(Error::Entropy),
        },
{
    match outcome {
        Ok(_) => Ok(bytes),
        Err(_) => Err(Error::Entropy),
    }
}

/// As many requests as `times` says, each for `size` bytes.
pub open spec fn repeated(size: nat, times: nat) -> Seq<nat> {
    Seq::new(times, |i: int| size)
}

/// A request is answered in full or not at all, and what is handed out is recorded behind what
/// was handed out before. A script is handed out from its start, every byte once and in order,
/// and refuses a request only where it has fewer bytes left. The system's generator answers with
/// what OpenSSL has put into a buffer of that length, and refuses where OpenSSL does.
pub proof fn law_requests_are_answered_in_order(
    source: &mut ByteSource,
    count: usize,
    bytes: Result<Vec<u8>, Error>,
)
    requires
        old(source).wf(),
        call_ensures(ByteSource::fill_bytes, (source, count), bytes),
    ensures
        final(source).wf(),
        final(source).script() == old(source).script(),
        final(source).requests() == old(source).requests().push(count as nat),
        match bytes {
            Ok(bytes) => bytes@.len() == count && final(source).drawn() == old(source).drawn()
                + bytes@,
            Err(error) => error == Error::Entropy && final(source).drawn() == old(source).drawn(),
        },
        old(source).script() matches Some(script) ==> {
            let start = old(source).drawn().len() as int;
            &&& start <= script.len()
            &&& old(source).drawn() == script.take(start)
            &&& bytes is Ok <==> start + count <= script.len()
            &&& bytes matches Ok(bytes) ==> bytes@ == script.subrange(start, start + count)
        },
        old(source).script() is None ==> exists|
            buffer: &mut [u8],
            outcome: Result<(), ErrorStack>,
        | #[trigger]
            call_ensures(openssl::rand::rand_bytes, (buffer,), outcome) && buffer@.len() == count
                && (bytes is Ok <==> outcome is Ok) && (bytes matches Ok(bytes) ==> bytes@
                == final(buffer)@),
{
    let (before, after) = (*old(source), *final(source));
    before.lemma_drawn_is_prefix();
    after.lemma_drawn_is_prefix();
    assert(after.requests() =~= before.requests().push(count as nat));
    assert(bytes is Err ==> after.drawn() =~= before.drawn());
    if let Some(script) = before.script() {
        let start = before.drawn().len() as int;
        if let Ok(bytes) = bytes {
            assert(after.drawn() == script.take(start + count));
            assert(bytes@ =~= after.drawn().skip(start));
            assert(bytes@ =~= script.subrange(start, start + count));
        }
    }
}

/// A new source has handed out nothing. The system's generator has no script, and a replayed
/// script is the one that was given.
pub proof fn law_new_sources_are_unused(
    system: ByteSource,
    script: Vec<u8>,
    replayed: ByteSource,
)
    requires
        call_ensures(ByteSource::system, (), system),
        call_ensures(ByteSource::replay, (script,), replayed),
    ensures
        system.wf() && replayed.wf(),
        system.drawn().len() == 0 && replayed.drawn().len() == 0,
        system.requests().len() == 0 && replayed.requests().len() == 0,
        system.script() is None,
        replayed.script() == Some(script@),
{
}

/// A buffer is delivered, unchanged, exactly where the request for it succeeded.
pub proof fn law_failed_requests_deliver_nothing(
    outcome: Result<(), ErrorStack>,
    bytes: Vec<u8>,
    delivery: Result<Vec<u8>, Error>,
)
    requires
        call_ensures(delivered, (outcome, bytes), delivery),
    ensures
        delivery is Ok <==> outcome is Ok,
        delivery matches Ok(delivery) ==> delivery@ == bytes@,
        delivery matches Err(error) ==> error == Error::Entropy,
{
}

} // verus!
