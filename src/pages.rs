//! The navigation state of the application's pages.

use vstd::prelude::*;

verus! {

/// A page of the application.
#[derive(Clone, Copy, Debug, PartialEq, Eq)]
pub enum Page {
    Main,
    Surround,
}

/// The page at a position of the navigation list: 0 is the main page and
/// 1 the surround page; any other number names no page.
pub fn page_from_index(n: i32) -> (r: Option<Page>)
    ensures
        r == (if n == 0 {
            Some(Page::Main)
        } else if n == 1 {
            Some(Page::Surround)
        } else {
            None
        }),
{
    match n {
        0 => Some(Page::Main),
        1 => Some(Page::Surround),
        _ => None,
    }
}

/// Whether a page has been set up, and whether its settings are enabled.
pub struct PageState {
    init: bool,
    page_enabled: bool,
}

impl PageState {
    /// The page has been set up.
    pub closed spec fn is_init(&self) -> bool {
        self.init
    }

    /// The page's settings are enabled.
    pub closed spec fn is_enabled(&self) -> bool {
        self.page_enabled
    }

    /// A page not set up yet, with its settings enabled.
    pub fn new() -> (r: Self)
        ensures
            !r.is_init(),
            r.is_enabled(),
    {
        PageState { init: false, page_enabled: true }
    }

    /// The state itself, to change in place.
    pub fn get_mut(&mut self) -> (r: &mut Self)
        ensures
            *r == *old(self),
            *final(self) == *final(r),
    {
        self
    }

    pub fn get_init(&self) -> (r: bool)
        ensures
            r == self.is_init(),
    {
        self.init
    }

    pub fn set_init(&mut self, state: bool)
        ensures
            final(self).is_init() == state,
            final(self).is_enabled() == old(self).is_enabled(),
    {
        self.init = state;
    }

    pub fn get_page_enabled(&self) -> (r: bool)
        ensures
            r == self.is_enabled(),
    {
        self.page_enabled
    }

    pub fn set_page_enabled(&mut self, state: bool)
        ensures
            final(self).is_enabled() == state,
            final(self).is_init() == old(self).is_init(),
    {
        self.page_enabled = state;
    }
}

/// A flag that records whether something has been set up.
pub trait InitTrait: Sized {
    fn new() -> (r: Self)
        ensures
            !r.state_of();

    spec fn state_of(&self) -> bool;

    fn get_state(&self) -> (r: bool)
        ensures
            r == self.state_of();

    fn set_state(&mut self, state: bool)
        ensures
            final(self).state_of() == state;
}

/// The flag, unset at first.
pub struct Init {
    init: bool,
}

impl InitTrait for Init {
    fn new() -> (r: Self) {
        Init { init: false }
    }

    closed spec fn state_of(&self) -> bool {
        self.init
    }

    fn get_state(&self) -> (r: bool) {
        self.init
    }

    fn set_state(&mut self, state: bool) {
        self.init = state;
    }
}

} // verus!
