use vstd::prelude::*;

verus! {

/// A note of a pattern: when it plays, its key and velocity, and its channel.
#[derive(Debug, Clone, Copy, PartialEq, Eq, Structural)]
pub struct Note {
    pub start: u32,
    pub end: u32,
    pub key: u8,
    pub velocity: u8,
    pub channel: u8,
}

impl Note {
    pub fn new(channel: u8, start: u32, end: u32, key: u8, velocity: u8) -> (r: Self)
        ensures
            r == (Note { channel, start, end, key, velocity }),
    {
        Note { channel, start, end, key, velocity }
    }

    /// The three bytes of the note's message with status `modifier` on its channel, with
    /// the key and velocity given or else its own.
    pub fn message(&self, modifier: u8, key: Option<u8>, velocity: Option<u8>) -> (r: [u8; 3])
        requires
            modifier + self.channel <= 0xFF,
        ensures
            r@ == seq![
                (modifier + self.channel) as u8,
                if key is Some {
                    key.unwrap()
                } else {
                    self.key
                },
                if velocity is Some {
                    velocity.unwrap()
                } else {
                    self.velocity
                },
            ],
    {
        let k = match key {
            Some(k) => k,
            None => self.key,
        };
        let v = match velocity {
            Some(v) => v,
            None => self.velocity,
        };
        let r = [modifier + self.channel, k, v];
        proof {
            assert(r@ =~= seq![(modifier + self.channel) as u8, k, v]);
        }
        r
    }
}

} // verus!
