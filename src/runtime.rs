use vstd::prelude::*;

verus! {

/// The C code placed before the blocks: the integer type, the storages, the
/// output and input primitives, and the start of `main`.
pub const HEADER: &'static str = r#"#include <stdint.h>
#include <stdio.h>
#include <stdlib.h>
#include <string.h>

typedef int64_t integer;

struct stack {
    integer *memory;
    size_t capacity;
};

struct queue {
    integer *memory;
    size_t head;
    size_t capacity;
};

struct storage_area {
    struct stack stack;
    struct queue queue;
};

struct output_buffer {
    char data[4096];
    size_t length;
};

struct input_stream {
    int last;
};

static struct storage_area storage[28];
static size_t size[28];
static struct output_buffer output;
static struct input_stream input;

static integer *grow(integer *memory, size_t count) {
    integer *result = realloc(memory, count * sizeof(integer));
    if (!result) {
        fputs("out of memory\n", stderr);
        exit(1);
    }
    return result;
}

static void push_stack(struct stack *s, size_t index, integer value) {
    if (index >= s->capacity) {
        size_t capacity = s->capacity ? s->capacity * 2 : 64;
        while (capacity <= index) {
            capacity *= 2;
        }
        s->memory = grow(s->memory, capacity);
        s->capacity = capacity;
    }
    s->memory[index] = value;
}

static void push_queue(struct queue *q, integer value, size_t new_size) {
    if (q->head + new_size > q->capacity) {
        if (q->head > 0) {
            memmove(q->memory, q->memory + q->head, (new_size - 1) * sizeof(integer));
            q->head = 0;
        }
        if (new_size > q->capacity) {
            size_t capacity = q->capacity ? q->capacity * 2 : 64;
            while (capacity < new_size) {
                capacity *= 2;
            }
            q->memory = grow(q->memory, capacity);
            q->capacity = capacity;
        }
    }
    q->memory[q->head + new_size - 1] = value;
}

static integer pop_queue(struct queue *q) {
    return q->memory[q->head++];
}

static void flush(struct output_buffer *out) {
    fwrite(out->data, 1, out->length, stdout);
    fflush(stdout);
    out->length = 0;
}

static void put_bytes(struct output_buffer *out, const char *bytes, size_t count) {
    if (out->length + count > sizeof out->data) {
        flush(out);
    }
    memcpy(out->data + out->length, bytes, count);
    out->length += count;
}

static void print_decimal(struct output_buffer *out, integer value) {
    char text[32];
    int count = snprintf(text, sizeof text, "%lld", (long long)value);
    put_bytes(out, text, (size_t)count);
}

static void print_utf8(struct output_buffer *out, integer value) {
    char text[4];
    size_t count;
    uint32_t c = (uint32_t)value;
    if (c < 0x80) {
        text[0] = (char)c;
        count = 1;
    } else if (c < 0x800) {
        text[0] = (char)(0xC0 | (c >> 6));
        text[1] = (char)(0x80 | (c & 0x3F));
        count = 2;
    } else if (c < 0x10000) {
        text[0] = (char)(0xE0 | (c >> 12));
        text[1] = (char)(0x80 | ((c >> 6) & 0x3F));
        text[2] = (char)(0x80 | (c & 0x3F));
        count = 3;
    } else {
        text[0] = (char)(0xF0 | ((c >> 18) & 0x07));
        text[1] = (char)(0x80 | ((c >> 12) & 0x3F));
        text[2] = (char)(0x80 | ((c >> 6) & 0x3F));
        text[3] = (char)(0x80 | (c & 0x3F));
        count = 4;
    }
    put_bytes(out, text, count);
}

static integer scan_decimal(struct input_stream *in) {
    long long value = -1;
    flush(&output);
    in->last = scanf("%lld", &value);
    return in->last == 1 ? (integer)value : -1;
}

static integer scan_utf8(struct input_stream *in) {
    flush(&output);
    int c = getchar();
    in->last = c;
    if (c == EOF) {
        return -1;
    }
    int extra = c >= 0xF0 ? 3 : c >= 0xE0 ? 2 : c >= 0xC0 ? 1 : 0;
    integer value = extra == 3 ? (c & 0x07) : extra == 2 ? (c & 0x0F) : extra == 1 ? (c & 0x1F) : c;
    while (extra-- > 0) {
        int d = getchar();
        if (d == EOF) {
            break;
        }
        value = (value << 6) | (d & 0x3F);
    }
    return value;
}

int main(void) {
"#;

/// The C code placed after the blocks: the end of `main`.
pub const FOOTER: &'static str = "}\n";

} // verus!
