//! The desktop: windows of buttons, and how pointer presses and keys move focus and
//! press buttons.
use vstd::prelude::*;
use crate::graphics::Color;

verus! {

/// An axis-aligned rectangle on the screen.
#[derive(Clone, Copy, PartialEq, Eq, Structural, Debug)]
pub struct Rect {
    pub x: i32,
    pub y: i32,
    pub width: usize,
    pub height: usize,
}

/// `start + length`, clamped to the largest `i32`.
pub open spec fn edge(start: i32, length: usize) -> int {
    if start + length > i32::MAX {
        i32::MAX as int
    } else {
        start + length
    }
}

/// Whether the point lies in the rectangle; a rectangle too wide or tall for an
/// `i32` holds nothing.
pub open spec fn rect_contains(rect: Rect, x: i32, y: i32) -> bool {
    &&& rect.width <= i32::MAX
    &&& rect.height <= i32::MAX
    &&& x >= rect.x
    &&& y >= rect.y
    &&& x < edge(rect.x, rect.width)
    &&& y < edge(rect.y, rect.height)
}

fn clamped_edge(start: i32, length: usize) -> (end: i32)
    requires
        length <= i32::MAX,
    ensures
        end == edge(start, length),
{
    let end = start as i64 + length as i64;
    if end > i32::MAX as i64 {
        i32::MAX
    } else {
        end as i32
    }
}

impl Rect {
    pub fn new(x: i32, y: i32, width: usize, height: usize) -> (rect: Self)
        ensures
            rect == (Rect { x, y, width, height }),
    {
        Rect { x, y, width, height }
    }

    pub fn contains(self, x: i32, y: i32) -> (inside: bool)
        ensures
            inside == rect_contains(self, x, y),
    {
        if self.width > i32::MAX as usize || self.height > i32::MAX as usize {
            return false;
        }
        x >= self.x && y >= self.y && x < clamped_edge(self.x, self.width) && y < clamped_edge(self.y, self.height)
    }
}

/// What the desktop reacts to.
#[derive(Clone, Copy, PartialEq, Eq, Structural, Debug)]
pub enum InputEvent {
    PointerDown { x: i32, y: i32 },
    Key(char),
}

/// A push button that toggles.
#[derive(Clone, Copy, Debug)]
pub struct Button {
    pub bounds: Rect,
    pub label: &'static str,
    pub color: Color,
    pub pressed: bool,
    pub focused: bool,
}

impl Button {
    pub fn new(bounds: Rect, label: &'static str, color: Color) -> (button: Self)
        ensures
            button == (Button { bounds, label, color, pressed: false, focused: false }),
    {
        Button { bounds, label, color, pressed: false, focused: false }
    }
}

/// A window: a title bar over a body holding buttons.
pub struct Window {
    pub bounds: Rect,
    pub title: &'static str,
    pub title_bar_height: usize,
    pub title_color: Color,
    pub body_color: Color,
    pub buttons: Vec<Button>,
}

/// A window as a value: its frame and its buttons in order.
pub struct WindowView {
    pub bounds: Rect,
    pub title: &'static str,
    pub title_bar_height: usize,
    pub title_color: Color,
    pub body_color: Color,
    pub buttons: Seq<Button>,
}

impl View for Window {
    type V = WindowView;

    open spec fn view(&self) -> WindowView {
        WindowView {
            bounds: self.bounds,
            title: self.title,
            title_bar_height: self.title_bar_height,
            title_color: self.title_color,
            body_color: self.body_color,
            buttons: self.buttons@,
        }
    }
}

/// `buttons` with every focus cleared.
pub open spec fn unfocused(buttons: Seq<Button>) -> Seq<Button> {
    buttons.map_values(|b: Button| Button { focused: false, ..b })
}

/// The first focused button.
pub open spec fn first_focused(buttons: Seq<Button>, from: int) -> Option<int>
    decreases buttons.len() - from,
{
    if from < 0 || from >= buttons.len() {
        None
    } else if buttons[from].focused {
        Some(from)
    } else {
        first_focused(buttons, from + 1)
    }
}

proof fn lemma_first_focused(buttons: Seq<Button>, from: int)
    requires
        0 <= from,
    ensures
        first_focused(buttons, from) matches Some(i) ==> from <= i < buttons.len() && buttons[i].focused,
    decreases buttons.len() - from,
{
    if from < buttons.len() {
        lemma_first_focused(buttons, from + 1);
    }
}

/// The buttons after a key or press, and whether the window took the event.
///
/// Tab moves focus to the button after the focused one, wrapping, or to the first
/// when none is focused; Enter toggles the focused button; a press focuses exactly
/// the buttons under the pointer and toggles them.
pub open spec fn window_handles(buttons: Seq<Button>, event: InputEvent) -> (Seq<Button>, bool) {
    match event {
        InputEvent::Key(c) => if c == '\t' {
            if buttons.len() == 0 {
                (buttons, false)
            } else {
                let next = match first_focused(buttons, 0) {
                    Some(i) => (i + 1) % (buttons.len() as int),
                    None => 0,
                };
                (Seq::new(buttons.len(), |i: int| Button { focused: i == next, ..buttons[i] }), true)
            }
        } else if c == '\n' {
            match first_focused(buttons, 0) {
                Some(i) => (buttons.update(i, Button { pressed: !buttons[i].pressed, ..buttons[i] }), true),
                None => (buttons, false),
            }
        } else {
            (buttons, false)
        },
        InputEvent::PointerDown { x, y } => (
            buttons.map_values(
                |b: Button|
                    if rect_contains(b.bounds, x, y) {
                        Button { focused: true, pressed: !b.pressed, ..b }
                    } else {
                        Button { focused: false, ..b }
                    },
            ),
            exists|i: int| 0 <= i < buttons.len() && rect_contains(#[trigger] buttons[i].bounds, x, y),
        ),
    }
}

impl Window {
    pub fn new(bounds: Rect, title: &'static str) -> (window: Self)
        ensures
            window@.bounds == bounds,
            window@.title == title,
            window@.title_bar_height == 24,
            window@.title_color == (Color { r: 40, g: 220, b: 230 }),
            window@.body_color == (Color { r: 255, g: 255, b: 255 }),
            window@.buttons == Seq::<Button>::empty(),
    {
        Window {
            bounds,
            title,
            title_bar_height: 24,
            title_color: Color::cyan(),
            body_color: Color::white(),
            buttons: Vec::new(),
        }
    }

    pub fn add_button(&mut self, button: Button)
        ensures
            final(self)@ == (WindowView { buttons: old(self)@.buttons.push(button), ..old(self)@ }),
    {
        self.buttons.push(button);
    }

    fn contains(&self, x: i32, y: i32) -> (inside: bool)
        ensures
            inside == rect_contains(self.bounds, x, y),
    {
        self.bounds.contains(x, y)
    }

    fn clear_focus(&mut self)
        ensures
            final(self)@ == (WindowView { buttons: unfocused(old(self)@.buttons), ..old(self)@ }),
    {
        let mut i: usize = 0;
        let length = self.buttons.len();
        while i < length
            invariant
                i <= length,
                length == self.buttons@.len(),
                length == old(self).buttons@.len(),
                self.bounds == old(self).bounds,
                self.title == old(self).title,
                self.title_bar_height == old(self).title_bar_height,
                self.title_color == old(self).title_color,
                self.body_color == old(self).body_color,
                forall|k: int| 0 <= k < i ==> #[trigger] self.buttons@[k] == unfocused(old(self).buttons@)[k],
                forall|k: int| i <= k < length ==> #[trigger] self.buttons@[k] == old(self).buttons@[k],
            decreases length - i,
        {
            let button = self.buttons[i];
            self.buttons.set(i, Button { focused: false, ..button });
            i = i + 1;
        }
        proof {
            assert(self.buttons@ =~= unfocused(old(self).buttons@));
        }
    }

    fn first_focused_index(&self) -> (index: Option<usize>)
        ensures
            match index {
                Some(i) => first_focused(self.buttons@, 0) == Some(i as int) && i < self.buttons@.len(),
                None => first_focused(self.buttons@, 0) is None,
            },
    {
        proof {
            lemma_first_focused(self.buttons@, 0);
        }
        let mut i: usize = 0;
        while i < self.buttons.len()
            invariant
                i <= self.buttons@.len(),
                first_focused(self.buttons@, 0) == first_focused(self.buttons@, i as int),
            decreases self.buttons@.len() - i,
        {
            if self.buttons[i].focused {
                return Some(i);
            }
            i = i + 1;
        }
        None
    }

    /// Reacts to `event`: Tab, Enter and pointer presses, as `window_handles` says.
    pub fn handle(&mut self, event: &InputEvent) -> (handled: bool)
        ensures
            (final(self)@.buttons, handled) == window_handles(old(self)@.buttons, *event),
            final(self)@.bounds == old(self)@.bounds,
            final(self)@.title == old(self)@.title,
            final(self)@.title_bar_height == old(self)@.title_bar_height,
            final(self)@.title_color == old(self)@.title_color,
            final(self)@.body_color == old(self)@.body_color,
    {
        let length = self.buttons.len();
        match *event {
            InputEvent::Key(c) => {
                if c == '\t' {
                    if length == 0 {
                        return false;
                    }
                    let next = match self.first_focused_index() {
                        Some(index) => (index + 1) % length,
                        None => 0,
                    };
                    let ghost original = self.buttons@;
                    let mut i: usize = 0;
                    while i < length
                        invariant
                            i <= length,
                            length == self.buttons@.len(),
                            length == original.len(),
                            self.bounds == old(self).bounds,
                            self.title == old(self).title,
                            self.title_bar_height == old(self).title_bar_height,
                            self.title_color == old(self).title_color,
                            self.body_color == old(self).body_color,
                            forall|k: int| 0 <= k < i ==> #[trigger] self.buttons@[k] == (Button { focused: k == next, ..original[k] }),
                            forall|k: int| i <= k < length ==> #[trigger] self.buttons@[k] == original[k],
                        decreases length - i,
                    {
                        let button = self.buttons[i];
                        self.buttons.set(i, Button { focused: i == next, ..button });
                        i = i + 1;
                    }
                    proof {
                        assert(self.buttons@ =~= Seq::new(original.len(), |k: int| Button { focused: k == next, ..original[k] }));
                    }
                    return true;
                }
                if c == '\n' {
                    match self.first_focused_index() {
                        Some(index) => {
                            proof {
                                lemma_first_focused(self.buttons@, 0);
                            }
                            let button = self.buttons[index];
                            self.buttons.set(index, Button { pressed: !button.pressed, ..button });
                            return true;
                        },
                        None => return false,
                    }
                }
                false
            },
            InputEvent::PointerDown { x, y } => {
                let ghost original = self.buttons@;
                let mut handled = false;
                let mut i: usize = 0;
                while i < length
                    invariant
                        i <= length,
                        length == self.buttons@.len(),
                        length == original.len(),
                        self.bounds == old(self).bounds,
                        self.title == old(self).title,
                        self.title_bar_height == old(self).title_bar_height,
                        self.title_color == old(self).title_color,
                        self.body_color == old(self).body_color,
                        forall|k: int|
                            0 <= k < i ==> #[trigger] self.buttons@[k] == (if rect_contains(original[k].bounds, x, y) {
                                Button { focused: true, pressed: !original[k].pressed, ..original[k] }
                            } else {
                                Button { focused: false, ..original[k] }
                            }),
                        forall|k: int| i <= k < length ==> #[trigger] self.buttons@[k] == original[k],
                        handled == exists|k: int| 0 <= k < i && rect_contains(#[trigger] original[k].bounds, x, y),
                    decreases length - i,
                {
                    let button = self.buttons[i];
                    let hit = button.bounds.contains(x, y);
                    if hit {
                        self.buttons.set(i, Button { focused: true, pressed: !button.pressed, ..button });
                        handled = true;
                    } else {
                        self.buttons.set(i, Button { focused: false, ..button });
                    }
                    proof {
                        if !hit {
                            assert(!rect_contains(original[i as int].bounds, x, y));
                        }
                    }
                    i = i + 1;
                }
                proof {
                    assert(self.buttons@ =~= original.map_values(
                        |b: Button|
                            if rect_contains(b.bounds, x, y) {
                                Button { focused: true, pressed: !b.pressed, ..b }
                            } else {
                                Button { focused: false, ..b }
                            },
                    ));
                }
                handled
            },
        }
    }
}

/// The topmost of the first `n` windows of `stack` under the point.
pub open spec fn topmost(stack: Seq<WindowView>, x: i32, y: i32, n: int) -> Option<int>
    decreases n,
{
    if n <= 0 {
        None
    } else if rect_contains(stack[n - 1].bounds, x, y) {
        Some(n - 1)
    } else {
        topmost(stack, x, y, n - 1)
    }
}

/// `stack` with the focus cleared in every window but the one at `keep`.
pub open spec fn focus_only(stack: Seq<WindowView>, keep: int) -> Seq<WindowView> {
    Seq::new(
        stack.len(),
        |i: int|
            if i == keep {
                stack[i]
            } else {
                WindowView { buttons: unfocused(stack[i].buttons), ..stack[i] }
            },
    )
}

/// The desktop: a background and windows, the last on top.
pub struct Desktop {
    pub background: Color,
    pub windows: Vec<Window>,
}

impl Desktop {
    /// The windows as values, bottom first.
    pub open spec fn stack(&self) -> Seq<WindowView> {
        self.windows@.map_values(|w: Window| w@)
    }

    pub fn new(background: Color) -> (desktop: Self)
        ensures
            desktop.background == background,
            desktop.stack() == Seq::<WindowView>::empty(),
    {
        let desktop = Desktop { background, windows: Vec::new() };
        proof {
            assert(desktop.stack() =~= Seq::<WindowView>::empty());
        }
        desktop
    }

    /// Puts `window` on top.
    pub fn add_window(&mut self, window: Window)
        ensures
            final(self).stack() == old(self).stack().push(window@),
            final(self).background == old(self).background,
    {
        self.windows.push(window);
        proof {
            assert(self.stack() =~= old(self).stack().push(window@));
        }
    }

    /// Clears the focus of every window but the one at `keep`.
    fn clear_others(&mut self, keep: Option<usize>)
        ensures
            final(self).background == old(self).background,
            final(self).stack() == focus_only(old(self).stack(), match keep {
                Some(k) => k as int,
                None => -1,
            }),
    {
        let length = self.windows.len();
        let mut i: usize = 0;
        while i < length
            invariant
                i <= length,
                length == self.windows@.len(),
                length == old(self).windows@.len(),
                self.background == old(self).background,
                forall|k: int|
                    0 <= k < i ==> #[trigger] self.windows@[k]@ == (if keep == Some(k as usize) {
                        old(self).windows@[k]@
                    } else {
                        WindowView { buttons: unfocused(old(self).windows@[k]@.buttons), ..old(self).windows@[k]@ }
                    }),
                forall|k: int| i <= k < length ==> #[trigger] self.windows@[k] == old(self).windows@[k],
            decreases length - i,
        {
            if keep != Some(i) {
                self.windows[i].clear_focus();
            }
            i = i + 1;
        }
        proof {
            assert(self.stack() =~= focus_only(old(self).stack(), match keep {
                Some(k) => k as int,
                None => -1,
            }));
        }
    }

    /// The topmost window under the point.
    fn top_window_at(&self, x: i32, y: i32) -> (index: Option<usize>)
        ensures
            match index {
                Some(i) => topmost(self.stack(), x, y, self.stack().len() as int) == Some(i as int) && i < self.stack().len(),
                None => topmost(self.stack(), x, y, self.stack().len() as int) is None,
            },
    {
        let mut i = self.windows.len();
        while i > 0
            invariant
                i <= self.windows@.len(),
                topmost(self.stack(), x, y, self.stack().len() as int) == topmost(self.stack(), x, y, i as int),
            decreases i,
        {
            i = i - 1;
            if self.windows[i].contains(x, y) {
                return Some(i);
            }
        }
        None
    }

    /// Reacts to `event`. A pointer press raises the topmost window under it, clears
    /// focus everywhere else and hands the press to it; a press on the background
    /// clears every focus. Keys go to the top window.
    pub fn handle(&mut self, event: &InputEvent) -> (handled: bool)
        ensures
            final(self).background == old(self).background,
            match *event {
                InputEvent::PointerDown { x, y } => match topmost(old(self).stack(), x, y, old(self).stack().len() as int) {
                    None => !handled && final(self).stack() == focus_only(old(self).stack(), -1),
                    Some(active) => {
                        let raised = old(self).stack()[active];
                        &&& handled
                        &&& final(self).stack() == focus_only(old(self).stack(), active).remove(active).push(
                            WindowView { buttons: window_handles(raised.buttons, *event).0, ..raised },
                        )
                    },
                },
                InputEvent::Key(_) => if old(self).stack().len() == 0 {
                    !handled && final(self).stack() == old(self).stack()
                } else {
                    let top = old(self).stack().len() - 1;
                    let (buttons, taken) = window_handles(old(self).stack()[top].buttons, *event);
                    &&& handled == taken
                    &&& final(self).stack() == old(self).stack().update(
                        top,
                        WindowView { buttons, ..old(self).stack()[top] },
                    )
                },
            },
    {
        match *event {
            InputEvent::PointerDown { x, y } => {
                let active = match self.top_window_at(x, y) {
                    Some(index) => index,
                    None => {
                        self.clear_others(None);
                        return false;
                    },
                };
                self.clear_others(Some(active));
                let ghost cleared = self.stack();
                proof {
                    assert(self.windows@.len() == self.stack().len());
                    assert(cleared[active as int] == old(self).stack()[active as int]);
                    assert(self.windows@[active as int]@ == cleared[active as int]);
                }
                let mut window = self.windows.remove(active);
                window.handle(event);
                self.windows.push(window);
                proof {
                    assert(self.stack() =~= cleared.remove(active as int).push(window@));
                }
                true
            },
            InputEvent::Key(_) => {
                let length = self.windows.len();
                if length == 0 {
                    return false;
                }
                let handled = self.windows[length - 1].handle(event);
                proof {
                    assert(self.stack() =~= old(self).stack().update(
                        length - 1,
                        WindowView {
                            buttons: window_handles(old(self).stack()[length - 1].buttons, *event).0,
                            ..old(self).stack()[length - 1]
                        },
                    ));
                }
                handled
            },
        }
    }
}

/// Tabs to the first button, then to the second, activates it with Enter, and
/// presses the first with the pointer.
pub fn self_test() -> (passed: bool)
    ensures
        passed,
{
    let bounds = Rect::new(10, 10, 80, 30);
    let mut desktop = Desktop::new(Color::dark_blue());
    let mut window = Window::new(Rect::new(0, 0, 160, 120), "TEST");
    window.add_button(Button::new(bounds, "ACTIVATE", Color::cyan()));
    window.add_button(Button::new(Rect::new(10, 50, 80, 30), "SECOND", Color::cyan()));
    desktop.add_window(window);
    let ghost b0 = desktop.stack()[0].buttons;
    proof {
        assert(desktop.stack().len() == 1);
        assert(b0.len() == 2 && !b0[0].focused && !b0[1].focused && !b0[0].pressed && !b0[1].pressed);
        assert(first_focused(b0, 2) == None::<int>);
        assert(first_focused(b0, 1) == None::<int>);
        assert(first_focused(b0, 0) == None::<int>);
    }
    let first_handled = desktop.handle(&InputEvent::Key('\t'));
    let ghost b1 = desktop.stack()[0].buttons;
    proof {
        assert(desktop.stack().len() == 1);
        assert(b1.len() == 2 && b1[0].focused && !b1[1].focused);
        assert(desktop.windows@[0].buttons@ == b1);
        assert(first_focused(b1, 0) == Some(0int));
    }
    let first_focused = first_handled && desktop.windows.len() == 1 && desktop.windows[0].buttons.len() == 2
        && desktop.windows[0].buttons[0].focused;
    let second_handled = desktop.handle(&InputEvent::Key('\t'));
    let ghost b2 = desktop.stack()[0].buttons;
    proof {
        assert(desktop.stack().len() == 1);
        assert(b2.len() == 2 && !b2[0].focused && b2[1].focused && !b2[1].pressed);
        assert(desktop.windows@[0].buttons@ == b2);
        assert(self::first_focused(b2, 1) == Some(1int));
        assert(self::first_focused(b2, 0) == Some(1int));
    }
    let second_focused = second_handled && desktop.windows.len() == 1 && desktop.windows[0].buttons.len() == 2
        && desktop.windows[0].buttons[1].focused;
    let activated = desktop.handle(&InputEvent::Key('\n'));
    let ghost b3 = desktop.stack()[0].buttons;
    proof {
        assert(desktop.stack().len() == 1);
        assert(b3.len() == 2 && b3[1].pressed && !b3[0].pressed);
        assert(rect_contains(desktop.stack()[0].bounds, 20, 20));
        assert(topmost(desktop.stack(), 20, 20, 1) == Some(0int));
        assert(rect_contains(b3[0].bounds, 20, 20));
        assert(!rect_contains(b3[1].bounds, 20, 20));
    }
    let pointer_activation = desktop.handle(&InputEvent::PointerDown { x: 20, y: 20 });
    proof {
        assert(desktop.stack().len() == 1);
        assert(desktop.stack()[0].buttons[0].pressed && desktop.stack()[0].buttons[1].pressed);
        assert(desktop.windows@[0]@ == desktop.stack()[0]);
    }
    let pressed = desktop.windows.len() == 1 && desktop.windows[0].buttons.len() == 2
        && desktop.windows[0].buttons[0].pressed && desktop.windows[0].buttons[1].pressed;
    first_focused && second_focused && activated && pointer_activation && pressed
}

} // verus!
