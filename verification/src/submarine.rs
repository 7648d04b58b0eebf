//! Submarine command execution: two readings of forward/up/down commands
//! over a position, depth and aim state.

use vstd::prelude::*;

verus! {

/// One steering command with its argument.
#[derive(Clone, Copy, Debug, PartialEq, Eq, Structural)]
pub enum Command {
    Forward(u64),
    Up(u64),
    Down(u64),
}

/// The navigation state.
#[derive(Clone, Copy, Debug, PartialEq, Eq, Structural)]
pub struct Submarine {
    pub horizontal_pos: u64,
    pub depth: u64,
    pub aim: u64,
}

impl Default for Submarine {
    /// The starting state: everything at zero.
    fn default() -> (s: Self)
        ensures
            s == (Submarine { horizontal_pos: 0, depth: 0, aim: 0 }),
    {
        Submarine { horizontal_pos: 0, depth: 0, aim: 0 }
    }
}

impl Submarine {
    /// Execute one command under the first reading: forward moves
    /// horizontally, up and down change the depth directly.
    pub fn exec_one(&mut self, command: Command)
        requires
            match command {
                Command::Forward(x) => old(self).horizontal_pos + x <= u64::MAX,
                Command::Up(x) => x <= old(self).depth,
                Command::Down(x) => old(self).depth + x <= u64::MAX,
            },
        ensures
            *final(self) == (match command {
                Command::Forward(x) => (Submarine {
                    horizontal_pos: (old(self).horizontal_pos + x) as u64,
                    ..*old(self)
                }),
                Command::Up(x) => (Submarine { depth: (old(self).depth - x) as u64, ..*old(self) }),
                Command::Down(x) => (Submarine {
                    depth: (old(self).depth + x) as u64,
                    ..*old(self)
                }),
            }),
    {
        match command {
            Command::Forward(x) => {
                self.horizontal_pos = self.horizontal_pos + x;
            },
            Command::Up(x) => {
                self.depth = self.depth - x;
            },
            Command::Down(x) => {
                self.depth = self.depth + x;
            },
        }
    }

    /// Execute one command under the second reading: up and down steer the
    /// aim, forward moves horizontally and dives by aim times the argument.
    pub fn exec_two(&mut self, command: Command)
        requires
            match command {
                Command::Forward(x) => old(self).horizontal_pos + x <= u64::MAX && old(self).depth
                    + old(self).aim * x <= u64::MAX,
                Command::Up(x) => x <= old(self).aim,
                Command::Down(x) => old(self).aim + x <= u64::MAX,
            },
        ensures
            *final(self) == (match command {
                Command::Forward(x) => (Submarine {
                    horizontal_pos: (old(self).horizontal_pos + x) as u64,
                    depth: (old(self).depth + old(self).aim * x) as u64,
                    aim: old(self).aim,
                }),
                Command::Up(x) => (Submarine { aim: (old(self).aim - x) as u64, ..*old(self) }),
                Command::Down(x) => (Submarine { aim: (old(self).aim + x) as u64, ..*old(self) }),
            }),
    {
        match command {
            Command::Forward(x) => {
                self.horizontal_pos = self.horizontal_pos + x;
                self.depth = self.depth + self.aim * x;
            },
            Command::Up(x) => {
                self.aim = self.aim - x;
            },
            Command::Down(x) => {
                self.aim = self.aim + x;
            },
        }
    }

    /// The puzzle answer: horizontal position times depth.
    pub fn multiply_hd(&self) -> (r: u64)
        requires
            self.horizontal_pos * self.depth <= u64::MAX,
        ensures
            r == self.horizontal_pos * self.depth,
    {
        self.horizontal_pos * self.depth
    }

    /// Return to the starting state.
    pub fn reset(&mut self)
        ensures
            *final(self) == (Submarine { horizontal_pos: 0, depth: 0, aim: 0 }),
    {
        self.horizontal_pos = 0;
        self.aim = 0;
        self.depth = 0;
    }
}

} // verus!
