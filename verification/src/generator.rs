//! Random words, for a library that wants its randomness from outside.
use crate::bytes;
use crate::error::Error;
use crate::source::ByteSource;
use vstd::prelude::*;

verus! {

/// `u32::from_ne_bytes` reads a word as the machine stores it. The claim is that the least
/// significant byte comes first or that the most significant byte does; which of the two is
/// up to the machine.
#[verifier::external_body]
fn from_ne_bytes(memory: [u8; 4]) -> (word: u32)
    ensures
        word == bytes::le_value(memory@) || word == bytes::be_value(memory@),
{
    u32::from_ne_bytes(memory)
}

impl ByteSource {
    /// Draws a word of 32 bits, by one request for four bytes.
    pub fn next_word(&mut self) -> (word: Result<u32, Error>)
        requires
            old(self).wf(),
        ensures
            old(self).advances_to(*final(self)),
            old(self).asked(*final(self)) == seq![4nat],
            match word {
                Ok(word) => {
                    let taken = old(self).taken(*final(self));
                    taken.len() == 4 && (word == bytes::le_value(taken) || word == bytes::be_value(
                        taken,
                    ))
                },
                Err(error) => {
                    &&& error == Error::Entropy
                    &&& old(self).taken(*final(self)) == Seq::<u8>::empty()
                    &&& old(self).script() is Some ==> old(self).remaining().len() < 4
                },
            },
    {
        match self.fill_bytes(4) {
            Ok(buffer) => {
                let memory: [u8; 4] = [buffer[0], buffer[1], buffer[2], buffer[3]];
                assert(memory@ =~= buffer@);
                Ok(from_ne_bytes(memory))
            },
            Err(error) => Err(error),
        }
    }
}

/// A generator of words that draws its randomness from OpenSSL.
pub struct GeneratorOpenSSL;

impl GeneratorOpenSSL {
    /// Draws a word.
    pub fn gen(&mut self) -> (word: Result<u32, Error>)
        ensures
            match word {
                Ok(word) => exists|memory: Seq<u8>|
                    memory.len() == 4 && (word == #[trigger] bytes::le_value(memory) || word
                        == bytes::be_value(memory)),
                Err(error) => error == Error::Entropy,
            },
            exists|source: &mut ByteSource| #[trigger]
                call_ensures(ByteSource::next_word, (source,), word) && source.wf() && source.script() is None,
    {
        let mut source = ByteSource::system();
        let ghost before = source;
        let word = source.next_word();
        proof {
            if let Ok(word) = word {
                let memory = before.taken(source);
                let value = bytes::le_value(memory);
                assert(memory.len() == 4 && (word == value || word == bytes::be_value(memory)));
                assert(exists|memory: Seq<u8>|
                    memory.len() == 4 && (word == #[trigger] bytes::le_value(memory) || word
                        == bytes::be_value(memory)));
            }
        }
        word
    }
}

/// A word is made up of the four bytes that were drawn for it, in their order or in the
/// opposite one, and each byte counts in full.
pub proof fn law_words_hold_four_bytes(source: &mut ByteSource, word: Result<u32, Error>)
    requires
        old(source).wf(),
        call_ensures(ByteSource::next_word, (source,), word),
    ensures
        final(source).requests() == old(source).requests().push(4),
        final(source).script() == old(source).script(),
        word matches Ok(word) ==> {
            let memory = final(source).drawn().skip(old(source).drawn().len() as int);
            &&& memory.len() == 4
            &&& final(source).drawn() == old(source).drawn() + memory
            &&& {
                ||| word == memory[0] + 0x100 * memory[1] + 0x1_0000 * memory[2] + 0x100_0000
                    * memory[3]
                ||| word == memory[3] + 0x100 * memory[2] + 0x1_0000 * memory[1] + 0x100_0000
                    * memory[0]
            }
        },
        word matches Err(error) ==> error == Error::Entropy && final(source).drawn() == old(
            source,
        ).drawn(),
        word is Err && old(source).script() is Some ==> old(source).script()->0.len() < old(
            source,
        ).drawn().len() + 4,
{
    assert(final(source).requests() =~= old(source).requests().push(4));
    let memory = old(source).taken(*final(source));
    if word is Ok {
        reveal_with_fuel(bytes::le_value, 5);
        reveal_with_fuel(bytes::be_value, 5);
        assert(memory.skip(1)[0] == memory[1]);
        assert(memory.skip(1).skip(1)[0] == memory[2]);
        assert(memory.skip(1).skip(1).skip(1)[0] == memory[3]);
        let d1 = memory.drop_last();
        let d2 = d1.drop_last();
        let d3 = d2.drop_last();
        assert(d1.last() == memory[2] && d2.last() == memory[1] && d3.last() == memory[0]);
    } else {
        assert(final(source).drawn() =~= old(source).drawn());
        old(source).lemma_drawn_is_prefix();
    }
}

/// The generator hands out words that a source on the system's generator has drawn.
pub proof fn law_generated_words_are_drawn(
    generator: &mut GeneratorOpenSSL,
    word: Result<u32, Error>,
)
    requires
        call_ensures(GeneratorOpenSSL::gen, (generator,), word),
    ensures
        exists|source: &mut ByteSource| #[trigger]
            call_ensures(ByteSource::next_word, (source,), word) && source.wf() && source.script() is None,
        word matches Err(error) ==> error == Error::Entropy,
{
}

} // verus!
