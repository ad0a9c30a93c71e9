//! The logic behind two small widgets, free of any toolkit: the colour of a
//! swatch, converted from hue, saturation and lightness to red, green and
//! blue, and the items and the selection of a combo box.

pub mod color;
pub mod combobox;
pub mod fractions;
pub mod numerators;
